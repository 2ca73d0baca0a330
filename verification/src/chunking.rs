use vstd::prelude::*;
use vstd::string::*;
use vstd::utf8::*;

verus! {

broadcast use vstd::utf8::group_utf8_lib;

/// Distance in bytes between the starts of two consecutive chunks.
pub open spec fn chunk_stride(chunk_size: usize, overlap: usize) -> int {
    chunk_size - overlap
}

/// Number of chunks cut from a text of `len` bytes: `ceil(len / stride)`.
pub open spec fn chunk_count(len: int, stride: int) -> int {
    if len <= 0 {
        0
    } else {
        (len - 1) / stride + 1
    }
}

/// Byte offset at which chunk `i` starts.
pub open spec fn chunk_start(i: int, stride: int) -> int {
    i * stride
}

/// Byte offset (exclusive) at which chunk `i` ends: its window of
/// `chunk_size + overlap` bytes, cut short by the end of the text.
pub open spec fn chunk_end(len: int, chunk_size: usize, overlap: usize, i: int) -> int {
    let want = chunk_start(i, chunk_stride(chunk_size, overlap)) + chunk_size + overlap;
    if want < len {
        want
    } else {
        len
    }
}

/// The byte windows that chunking cuts from `bytes`, in order.
pub open spec fn chunk_windows(bytes: Seq<u8>, chunk_size: usize, overlap: usize) -> Seq<Seq<u8>> {
    let stride = chunk_stride(chunk_size, overlap);
    Seq::new(
        chunk_count(bytes.len() as int, stride) as nat,
        |i: int|
            bytes.subrange(
                chunk_start(i, stride),
                chunk_end(bytes.len() as int, chunk_size, overlap, i),
            ),
    )
}

/// Chunking is defined on `bytes`: the stride is positive whenever there is
/// text to cut, and every window starts and ends on a character boundary.
pub open spec fn chunking_defined(bytes: Seq<u8>, chunk_size: usize, overlap: usize) -> bool {
    let stride = chunk_stride(chunk_size, overlap);
    &&& bytes.len() > 0 ==> overlap < chunk_size
    &&& forall|i: int|
        0 <= i < chunk_count(bytes.len() as int, stride) ==> {
            &&& is_char_boundary(bytes, #[trigger] chunk_start(i, stride))
            &&& is_char_boundary(bytes, chunk_end(bytes.len() as int, chunk_size, overlap, i))
        }
}

/// Joins windows back together: every window but the last contributes its
/// first `stride` bytes, the last one contributes all of its bytes.
pub open spec fn stitch(windows: Seq<Seq<u8>>, stride: int) -> Seq<u8>
    decreases windows.len(),
{
    if windows.len() == 0 {
        Seq::empty()
    } else if windows.len() == 1 {
        windows[0]
    } else {
        windows[0].take(stride) + stitch(windows.drop_first(), stride)
    }
}

/// Chunk `i` exists exactly when it starts inside the text.
pub proof fn lemma_chunk_index(len: int, stride: int, i: int)
    requires
        stride > 0,
        len > 0,
        i >= 0,
    ensures
        (i < chunk_count(len, stride)) <==> (chunk_start(i, stride) < len),
{
    let q = (len - 1) / stride;
    let r = (len - 1) % stride;
    vstd::arithmetic::div_mod::lemma_fundamental_div_mod(len - 1, stride);
    assert(0 <= r < stride) by {
        vstd::arithmetic::div_mod::lemma_mod_bound(len - 1, stride);
    }
    assert(i <= q <==> i * stride <= len - 1) by (nonlinear_arith)
        requires
            len - 1 == stride * q + r,
            0 <= r < stride,
            i >= 0,
            stride > 0,
    ;
}

/// A boundary of `bytes` at `a + k` is a boundary at `k` of the suffix that
/// starts at the boundary `a`.
proof fn lemma_boundary_in_suffix(bytes: Seq<u8>, a: int, k: int)
    requires
        valid_utf8(bytes),
        0 <= a,
        0 <= k,
        a + k <= bytes.len(),
        is_char_boundary(bytes, a),
        is_char_boundary(bytes, a + k),
    ensures
        valid_utf8(bytes.subrange(a, bytes.len() as int)),
        is_char_boundary(bytes.subrange(a, bytes.len() as int), k),
{
    let suffix = bytes.subrange(a, bytes.len() as int);
    valid_utf8_split(bytes, a);
    is_char_boundary_start_end_of_seq(suffix);
    if 0 < k < suffix.len() {
        is_char_boundary_iff_is_leading_byte(bytes, a + k);
        is_char_boundary_iff_is_leading_byte(suffix, k);
        assert(suffix[k] == bytes[a + k]);
    }
}

proof fn lemma_stitch_from(bytes: Seq<u8>, chunk_size: usize, overlap: usize, k: int)
    requires
        overlap < chunk_size,
        0 <= k < chunk_windows(bytes, chunk_size, overlap).len(),
    ensures
        stitch(chunk_windows(bytes, chunk_size, overlap).skip(k), chunk_stride(chunk_size, overlap))
            == bytes.subrange(k * chunk_stride(chunk_size, overlap), bytes.len() as int),
    decreases chunk_windows(bytes, chunk_size, overlap).len() - k,
{
    let st = chunk_stride(chunk_size, overlap);
    let len = bytes.len() as int;
    let windows = chunk_windows(bytes, chunk_size, overlap);
    let rest = windows.skip(k);
    lemma_chunk_index(len, st, k);
    lemma_chunk_index(len, st, k + 1);
    assert((k + 1) * st == k * st + st) by (nonlinear_arith);
    assert(chunk_start(k, st) == k * st);
    assert(chunk_start(k + 1, st) == k * st + st);
    if k + 1 == windows.len() {
        assert(chunk_end(len, chunk_size, overlap, k) == len);
        assert(rest.len() == 1);
        assert(rest[0] == windows[k]);
    } else {
        lemma_stitch_from(bytes, chunk_size, overlap, k + 1);
        assert(rest.drop_first() =~= windows.skip(k + 1));
        assert(rest[0] == windows[k]);
        assert(windows[k].take(st) =~= bytes.subrange(k * st, k * st + st));
        assert(bytes.subrange(k * st, k * st + st) + bytes.subrange(k * st + st, len)
            =~= bytes.subrange(k * st, len));
    }
}

/// Stitching the windows back together gives the whole text: every byte of
/// the text is covered, in order, and nothing else is added.
pub proof fn lemma_chunks_reassemble(bytes: Seq<u8>, chunk_size: usize, overlap: usize)
    requires
        bytes.len() > 0 ==> overlap < chunk_size,
    ensures
        stitch(chunk_windows(bytes, chunk_size, overlap), chunk_stride(chunk_size, overlap))
            == bytes,
{
    let windows = chunk_windows(bytes, chunk_size, overlap);
    if bytes.len() == 0 {
        assert(windows.len() == 0);
        assert(bytes =~= Seq::<u8>::empty());
    } else {
        lemma_chunk_index(bytes.len() as int, chunk_stride(chunk_size, overlap), 0);
        lemma_stitch_from(bytes, chunk_size, overlap, 0);
        assert(windows.skip(0) =~= windows);
        assert(bytes.subrange(0, bytes.len() as int) =~= bytes);
    }
}

/// Every window is non-empty and holds at most `chunk_size + overlap` bytes;
/// it holds exactly that many unless the text ends first.
pub proof fn lemma_chunk_sizes(bytes: Seq<u8>, chunk_size: usize, overlap: usize, i: int)
    requires
        overlap < chunk_size,
        0 <= i < chunk_windows(bytes, chunk_size, overlap).len(),
    ensures
        0 < chunk_windows(bytes, chunk_size, overlap)[i].len() <= chunk_size + overlap,
        (chunk_windows(bytes, chunk_size, overlap)[i].len() == chunk_size + overlap)
            <==> (chunk_start(i, chunk_stride(chunk_size, overlap)) + chunk_size + overlap
            <= bytes.len()),
{
    lemma_chunk_index(bytes.len() as int, chunk_stride(chunk_size, overlap), i);
}

/// Consecutive windows overlap: the window after `i` starts `stride` bytes
/// after window `i` starts, so the bytes of window `i` past its first
/// `stride` ones open the next window.
pub proof fn lemma_consecutive_chunks_overlap(
    bytes: Seq<u8>,
    chunk_size: usize,
    overlap: usize,
    i: int,
)
    requires
        overlap < chunk_size,
        0 <= i,
        i + 1 < chunk_windows(bytes, chunk_size, overlap).len(),
    ensures
        ({
            let w = chunk_windows(bytes, chunk_size, overlap);
            let st = chunk_stride(chunk_size, overlap);
            &&& w[i].len() >= st
            &&& w[i].skip(st) == w[i + 1].take(w[i].len() - st)
        }),
{
    let w = chunk_windows(bytes, chunk_size, overlap);
    let st = chunk_stride(chunk_size, overlap);
    let len = bytes.len() as int;
    lemma_chunk_index(len, st, i);
    lemma_chunk_index(len, st, i + 1);
    assert((i + 1) * st == i * st + st) by (nonlinear_arith);
    assert(chunk_start(i + 1, st) == i * st + st);
    let e = chunk_end(len, chunk_size, overlap, i);
    assert(w[i].skip(st) =~= bytes.subrange(i * st + st, e));
    assert(w[i + 1].take(w[i].len() - st) =~= bytes.subrange(i * st + st, e));
}

/// On ASCII text every byte offset is a character boundary, so chunking is
/// defined for every chunk size larger than the overlap.
pub proof fn lemma_ascii_text_chunkable(text: Seq<char>, chunk_size: usize, overlap: usize)
    requires
        is_ascii_chars(text),
        text.len() > 0 ==> overlap < chunk_size,
    ensures
        chunking_defined(encode_utf8(text), chunk_size, overlap),
{
    let bytes = encode_utf8(text);
    let st = chunk_stride(chunk_size, overlap);
    is_ascii_chars_encode_utf8(text);
    assert forall|k: int| 0 <= k <= bytes.len() implies is_char_boundary(bytes, k) by {
        if k < bytes.len() {
            assert(text[k] as u8 == bytes[k]);
            assert((text[k] as u32) < 128);
            is_char_boundary_iff_is_leading_byte(bytes, k);
        }
    }
    assert forall|i: int| 0 <= i < chunk_count(bytes.len() as int, st) implies {
        &&& is_char_boundary(bytes, #[trigger] chunk_start(i, st))
        &&& is_char_boundary(bytes, chunk_end(bytes.len() as int, chunk_size, overlap, i))
    } by {
        lemma_chunk_index(bytes.len() as int, st, i);
    }
}

proof fn lemma_boundaries_give_text(bytes: Seq<u8>, a: int, b: int)
    requires
        valid_utf8(bytes),
        0 <= a <= b <= bytes.len(),
        is_char_boundary(bytes, a),
        is_char_boundary(bytes, b),
    ensures
        valid_utf8(bytes.subrange(a, b)),
{
    lemma_boundary_in_suffix(bytes, a, b - a);
    let suffix = bytes.subrange(a, bytes.len() as int);
    valid_utf8_split(suffix, b - a);
    assert(suffix.subrange(0, b - a) =~= bytes.subrange(a, b));
}

proof fn lemma_text_gives_boundaries(bytes: Seq<u8>, a: int, b: int)
    requires
        valid_utf8(bytes),
        0 <= a < b <= bytes.len(),
        valid_utf8(bytes.subrange(a, b)),
    ensures
        is_char_boundary(bytes, a),
        is_char_boundary(bytes, b),
{
    let mid = bytes.subrange(a, b);
    is_char_boundary_iff_not_is_continuation_byte(mid, 0);
    assert(mid[0] == bytes[a]);
    is_char_boundary_iff_not_is_continuation_byte(bytes, a);
    is_char_boundary_start_end_of_seq(bytes);
    if b < bytes.len() {
        valid_utf8_split(bytes, a);
        let pre = bytes.subrange(0, a);
        valid_utf8_concat(pre, mid);
        assert(pre + mid =~= bytes.subrange(0, b));
        let post = bytes.subrange(b, bytes.len() as int);
        if !valid_utf8(post) {
            partial_valid_partial_invalid_utf8(bytes, b);
        }
        is_char_boundary_iff_not_is_continuation_byte(post, 0);
        assert(post[0] == bytes[b]);
        is_char_boundary_iff_not_is_continuation_byte(bytes, b);
    }
}

/// Chunking is defined exactly when the stride is positive (for a
/// non-empty text) and every window it cuts is itself valid UTF-8 text: no
/// byte offset other than a window's start and end can stop it.
pub proof fn lemma_chunking_defined_iff_windows_are_text(
    bytes: Seq<u8>,
    chunk_size: usize,
    overlap: usize,
)
    requires
        valid_utf8(bytes),
    ensures
        chunking_defined(bytes, chunk_size, overlap) <==> ((bytes.len() > 0 ==> overlap
            < chunk_size) && forall|i: int|
            0 <= i < chunk_windows(bytes, chunk_size, overlap).len() ==> valid_utf8(
                #[trigger] chunk_windows(bytes, chunk_size, overlap)[i],
            )),
{
    let w = chunk_windows(bytes, chunk_size, overlap);
    let st = chunk_stride(chunk_size, overlap);
    let len = bytes.len() as int;
    if bytes.len() == 0 {
        assert(w.len() == 0);
        return;
    }
    if overlap >= chunk_size {
        return;
    }
    if chunking_defined(bytes, chunk_size, overlap) {
        assert forall|i: int| 0 <= i < w.len() implies valid_utf8(#[trigger] w[i]) by {
            lemma_chunk_index(len, st, i);
            assert(is_char_boundary(bytes, chunk_start(i, st)));
            lemma_boundaries_give_text(
                bytes,
                chunk_start(i, st),
                chunk_end(len, chunk_size, overlap, i),
            );
        }
    }
    if forall|i: int| 0 <= i < w.len() ==> valid_utf8(#[trigger] w[i]) {
        assert forall|i: int| 0 <= i < chunk_count(len, st) implies {
            &&& is_char_boundary(bytes, #[trigger] chunk_start(i, st))
            &&& is_char_boundary(bytes, chunk_end(len, chunk_size, overlap, i))
        } by {
            lemma_chunk_index(len, st, i);
            assert(valid_utf8(w[i]));
            lemma_text_gives_boundaries(
                bytes,
                chunk_start(i, st),
                chunk_end(len, chunk_size, overlap, i),
            );
        }
    }
}

/// Cuts `text` into windows of `chunk_size + overlap` bytes whose starts lie
/// `chunk_size - overlap` bytes apart; the windows at the end are cut short
/// by the end of the text.
pub fn chunk_with_overlap(text: &str, chunk_size: usize, overlap: usize) -> (chunks: Vec<String>)
    requires
        chunking_defined(text.spec_bytes(), chunk_size, overlap),
    ensures
        chunks.len() == chunk_windows(text.spec_bytes(), chunk_size, overlap).len(),
        forall|i: int|
            0 <= i < chunks.len() ==> encode_utf8(#[trigger] chunks[i]@) == chunk_windows(
                text.spec_bytes(),
                chunk_size,
                overlap,
            )[i],
{
    let ghost bytes = text.spec_bytes();
    let text_len = text.as_bytes().len();
    let mut chunks: Vec<String> = Vec::new();
    if text_len == 0 {
        return chunks;
    }
    let stride = chunk_size - overlap;
    let ghost st = stride as int;
    let ghost windows = chunk_windows(bytes, chunk_size, overlap);
    let mut start: usize = 0;
    let ghost mut i: int = 0;
    proof {
        assert(valid_utf8(bytes));
    }
    while start < text_len
        invariant
            bytes == text.spec_bytes(),
            text_len == bytes.len(),
            text_len > 0,
            stride == chunk_size - overlap,
            st == stride as int,
            st > 0,
            valid_utf8(bytes),
            chunking_defined(bytes, chunk_size, overlap),
            windows == chunk_windows(bytes, chunk_size, overlap),
            0 <= i,
            i * st < text_len ==> start == i * st,
            i * st >= text_len ==> start == text_len,
            i > 0 ==> (i - 1) * st < text_len,
            chunks.len() == i,
            forall|j: int| 0 <= j < i ==> encode_utf8(#[trigger] chunks[j]@) == windows[j],
        decreases text_len - start,
    {
        proof {
            lemma_chunk_index(text_len as int, st, i);
            assert(chunk_start(i, st) == start);
        }
        let end: usize = if overlap <= text_len - start && chunk_size <= text_len - start - overlap {
            start + chunk_size + overlap
        } else {
            text_len
        };
        assert(end == chunk_end(text_len as int, chunk_size, overlap, i));
        proof {
            assert(is_char_boundary(bytes, chunk_start(i, st)));
            lemma_boundary_in_suffix(bytes, start as int, end - start);
        }
        let (_, tail) = text.split_at(start);
        let (piece, _) = tail.split_at(end - start);
        let chunk = piece.to_owned();
        proof {
            assert(piece.spec_bytes() =~= bytes.subrange(start as int, end as int));
            assert(windows[i] == bytes.subrange(start as int, end as int));
        }
        chunks.push(chunk);
        start = if stride < text_len - start {
            start + stride
        } else {
            text_len
        };
        proof {
            assert((i + 1) * st == i * st + st) by (nonlinear_arith);
            i = i + 1;
        }
    }
    proof {
        lemma_chunk_index(text_len as int, st, i);
        lemma_chunk_index(text_len as int, st, i - 1);
        assert((i - 1) * st == chunk_start(i - 1, st));
    }
    chunks
}

/// Whether `chunk_with_overlap` is defined on these arguments: the test a
/// caller makes before cutting text that may not be ASCII.
pub fn can_chunk(text: &str, chunk_size: usize, overlap: usize) -> (ok: bool)
    ensures
        ok == chunking_defined(text.spec_bytes(), chunk_size, overlap),
{
    let ghost bytes = text.spec_bytes();
    let text_len = text.as_bytes().len();
    if text_len == 0 {
        return true;
    }
    if overlap >= chunk_size {
        return false;
    }
    let stride = chunk_size - overlap;
    let ghost st = stride as int;
    let mut start: usize = 0;
    let ghost mut i: int = 0;
    while start < text_len
        invariant
            bytes == text.spec_bytes(),
            text_len == bytes.len(),
            text_len > 0,
            overlap < chunk_size,
            stride == chunk_size - overlap,
            st == stride as int,
            0 <= i,
            i * st < text_len ==> start == i * st,
            i * st >= text_len ==> start == text_len,
            i > 0 ==> (i - 1) * st < text_len,
            forall|j: int|
                0 <= j < i ==> {
                    &&& is_char_boundary(bytes, #[trigger] chunk_start(j, st))
                    &&& is_char_boundary(bytes, chunk_end(text_len as int, chunk_size, overlap, j))
                },
        decreases text_len - start,
    {
        proof {
            lemma_chunk_index(text_len as int, st, i);
            assert(chunk_start(i, st) == start);
        }
        let end: usize = if overlap <= text_len - start && chunk_size <= text_len - start - overlap {
            start + chunk_size + overlap
        } else {
            text_len
        };
        assert(end == chunk_end(text_len as int, chunk_size, overlap, i));
        if !text.is_char_boundary(start) || !text.is_char_boundary(end) {
            return false;
        }
        start = if stride < text_len - start {
            start + stride
        } else {
            text_len
        };
        proof {
            assert((i + 1) * st == i * st + st) by (nonlinear_arith);
            i = i + 1;
        }
    }
    proof {
        assert forall|j: int| 0 <= j < chunk_count(text_len as int, st) implies {
            &&& is_char_boundary(bytes, #[trigger] chunk_start(j, st))
            &&& is_char_boundary(bytes, chunk_end(text_len as int, chunk_size, overlap, j))
        } by {
            lemma_chunk_index(text_len as int, st, j);
            lemma_chunk_index(text_len as int, st, i);
            if j >= i {
                assert(j * st >= i * st) by (nonlinear_arith)
                    requires j >= i, st > 0;
            }
        }
    }
    true
}

} // verus!
