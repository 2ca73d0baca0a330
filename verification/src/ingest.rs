use vstd::prelude::*;
use vstd::string::*;
use vstd::utf8::*;

use crate::chunking::{can_chunk, chunk_windows, chunk_with_overlap, chunking_defined};
use crate::text::{chars_of, decode_utf8_lossy, utf8_lossy};

verus! {

/// Nominal chunk size of uploaded documents in bytes: consecutive chunks
/// start `CHUNK_SIZE - CHUNK_OVERLAP` bytes apart.
pub const CHUNK_SIZE: usize = 300;

/// Bytes each chunk of an uploaded document reaches past its nominal size.
pub const CHUNK_OVERLAP: usize = 70;

/// The part of a file name after its last `.`; the whole name when it has
/// no `.`.
pub open spec fn extension_of(name: Seq<char>) -> Seq<char>
    decreases name.len(),
{
    if name.len() == 0 {
        name
    } else if name.last() == '.' {
        Seq::empty()
    } else {
        extension_of(name.drop_last()).push(name.last())
    }
}

/// The code of `c` with ASCII upper-case letters made lower-case.
pub open spec fn ascii_lower_code(c: char) -> int {
    if 'A' <= c <= 'Z' {
        (c as u32) + 32
    } else {
        c as u32 as int
    }
}

/// `s` spells `lower` (a lower-case word) in any mix of ASCII letter case.
pub open spec fn spells_ignoring_case(s: Seq<char>, lower: Seq<char>) -> bool {
    &&& s.len() == lower.len()
    &&& forall|i: int| 0 <= i < s.len() ==> ascii_lower_code(#[trigger] s[i]) == lower[i] as int
}

/// An extension that uploads may have: `pdf` or `md`, in any letter case.
/// (No character but `P`, `D`, `F` and `M` lower-cases to these letters, so
/// this is the same test as comparing the Unicode lower-case form.)
pub open spec fn is_supported_extension(ext: Seq<char>) -> bool {
    spells_ignoring_case(ext, seq!['p', 'd', 'f']) || spells_ignoring_case(ext, seq!['m', 'd'])
}

/// Why an upload was refused.
#[derive(Debug, Clone, Copy, PartialEq, Eq, Structural)]
pub enum IngestError {
    NoFilename,
    UnsupportedFileType,
    ReadFailed,
    StoreFailed,
    NoFileUploaded,
}

/// The HTTP status an ingestion error is answered with.
pub open spec fn error_status(e: IngestError) -> u16 {
    match e {
        IngestError::NoFilename => 400,
        IngestError::UnsupportedFileType => 415,
        IngestError::ReadFailed => 500,
        IngestError::StoreFailed => 500,
        IngestError::NoFileUploaded => 400,
    }
}

/// The message an ingestion error is answered with.
pub open spec fn error_message(e: IngestError) -> Seq<char> {
    match e {
        IngestError::NoFilename => "No filename provided"@,
        IngestError::UnsupportedFileType =>
            "Unsupported file type. Only PDF (.pdf) and Markdown (.md) files are accepted."@,
        IngestError::ReadFailed => "Failed to read uploaded file"@,
        IngestError::StoreFailed => "Failed to store embeddings in Qdrant. Is Qdrant running?"@,
        IngestError::NoFileUploaded => "No file uploaded"@,
    }
}

impl IngestError {
    /// The HTTP status code of the answer.
    pub fn status_code(&self) -> (code: u16)
        ensures
            code == error_status(*self),
    {
        match self {
            IngestError::NoFilename => 400,
            IngestError::UnsupportedFileType => 415,
            IngestError::ReadFailed => 500,
            IngestError::StoreFailed => 500,
            IngestError::NoFileUploaded => 400,
        }
    }

    /// The text of the `error` field of the answer.
    pub fn message(&self) -> (msg: String)
        ensures
            msg@ == error_message(*self),
    {
        match self {
            IngestError::NoFilename => String::from_str("No filename provided"),
            IngestError::UnsupportedFileType => String::from_str(
                "Unsupported file type. Only PDF (.pdf) and Markdown (.md) files are accepted.",
            ),
            IngestError::ReadFailed => String::from_str("Failed to read uploaded file"),
            IngestError::StoreFailed => String::from_str(
                "Failed to store embeddings in Qdrant. Is Qdrant running?",
            ),
            IngestError::NoFileUploaded => String::from_str("No file uploaded"),
        }
    }
}

/// The part of `file_name` after its last `.`, or all of it when it has no `.`.
pub fn file_extension(file_name: &str) -> (ext: String)
    ensures
        ext@ == extension_of(file_name@),
{
    let chars = chars_of(file_name);
    let n = chars.len();
    let mut k: usize = n;
    proof {
        assert(file_name@.take(n as int) =~= file_name@);
        assert(file_name@ + file_name@.subrange(n as int, n as int) =~= file_name@);
    }
    while k > 0 && chars[k - 1] != '.'
        invariant
            chars@ == file_name@,
            n == chars.len(),
            k <= n,
            forall|j: int| k <= j < n ==> chars@[j] != '.',
            extension_of(file_name@) == extension_of(file_name@.take(k as int)) + file_name@.subrange(
                k as int,
                n as int,
            ),
        decreases k,
    {
        proof {
            let t = file_name@.take(k as int);
            assert(t.drop_last() =~= file_name@.take(k - 1));
            assert(t.last() == chars@[k - 1]);
            assert(extension_of(file_name@.take(k - 1)).push(chars@[k - 1]) + file_name@.subrange(
                k as int,
                n as int,
            ) =~= extension_of(file_name@.take(k - 1)) + file_name@.subrange(k - 1, n as int));
        }
        k = k - 1;
    }
    proof {
        if k > 0 {
            let t = file_name@.take(k as int);
            assert(t.last() == '.');
        }
        assert(file_name@.take(0) =~= Seq::<char>::empty());
        assert(extension_of(file_name@.take(k as int)) + file_name@.subrange(k as int, n as int)
            =~= file_name@.subrange(k as int, n as int));
    }
    file_name.substring_char(k, n).to_owned()
}

proof fn lemma_code_is(c: char, lower: char, upper: char)
    requires
        'a' <= lower <= 'z',
        (upper as u32) + 32 == lower as u32,
        ascii_lower_code(c) == lower as int,
    ensures
        c == lower || c == upper,
{
    if 'A' <= c <= 'Z' {
        assert(c as u32 == upper as u32);
    }
}

/// Whether `ext` is `pdf` or `md`, in any letter case.
pub fn is_supported_file_type(ext: &str) -> (ok: bool)
    ensures
        ok == is_supported_extension(ext@),
{
    let c = chars_of(ext);
    let ok = if c.len() == 3 {
        (c[0] == 'p' || c[0] == 'P') && (c[1] == 'd' || c[1] == 'D') && (c[2] == 'f' || c[2]
            == 'F')
    } else if c.len() == 2 {
        (c[0] == 'm' || c[0] == 'M') && (c[1] == 'd' || c[1] == 'D')
    } else {
        false
    };
    proof {
        let pdf = seq!['p', 'd', 'f'];
        let md = seq!['m', 'd'];
        if spells_ignoring_case(ext@, pdf) {
            assert(ascii_lower_code(c@[0]) == pdf[0] as int);
            assert(ascii_lower_code(c@[1]) == pdf[1] as int);
            assert(ascii_lower_code(c@[2]) == pdf[2] as int);
            lemma_code_is(c@[0], 'p', 'P');
            lemma_code_is(c@[1], 'd', 'D');
            lemma_code_is(c@[2], 'f', 'F');
        }
        if spells_ignoring_case(ext@, md) {
            assert(ascii_lower_code(c@[0]) == md[0] as int);
            assert(ascii_lower_code(c@[1]) == md[1] as int);
            lemma_code_is(c@[0], 'm', 'M');
            lemma_code_is(c@[1], 'd', 'D');
        }
        if ok && c.len() == 3 {
            assert forall|i: int| 0 <= i < 3 implies ascii_lower_code(#[trigger] c@[i]) == pdf[i] as int by {
            }
        }
        if ok && c.len() == 2 {
            assert forall|i: int| 0 <= i < 2 implies ascii_lower_code(#[trigger] c@[i]) == md[i] as int by {
            }
        }
    }
    ok
}

/// The supported extensions are exactly the three letters `p`, `d`, `f` or
/// the two letters `m`, `d`, each letter in either case; nothing else, of
/// any length, is supported.
pub proof fn lemma_supported_extensions(ext: Seq<char>)
    ensures
        is_supported_extension(ext) <==> ((ext.len() == 3 && (ext[0] == 'p' || ext[0] == 'P') && (
        ext[1] == 'd' || ext[1] == 'D') && (ext[2] == 'f' || ext[2] == 'F')) || (ext.len() == 2 && (
        ext[0] == 'm' || ext[0] == 'M') && (ext[1] == 'd' || ext[1] == 'D'))),
{
    let pdf = seq!['p', 'd', 'f'];
    let md = seq!['m', 'd'];
    if spells_ignoring_case(ext, pdf) {
        assert(ascii_lower_code(ext[0]) == pdf[0] as int);
        assert(ascii_lower_code(ext[1]) == pdf[1] as int);
        assert(ascii_lower_code(ext[2]) == pdf[2] as int);
        lemma_code_is(ext[0], 'p', 'P');
        lemma_code_is(ext[1], 'd', 'D');
        lemma_code_is(ext[2], 'f', 'F');
    }
    if spells_ignoring_case(ext, md) {
        assert(ascii_lower_code(ext[0]) == md[0] as int);
        assert(ascii_lower_code(ext[1]) == md[1] as int);
        lemma_code_is(ext[0], 'm', 'M');
        lemma_code_is(ext[1], 'd', 'D');
    }
    if ext.len() == 3 && (ext[0] == 'p' || ext[0] == 'P') && (ext[1] == 'd' || ext[1] == 'D') && (
    ext[2] == 'f' || ext[2] == 'F') {
        assert forall|i: int| 0 <= i < 3 implies ascii_lower_code(#[trigger] ext[i]) == pdf[i] as int by {
        }
    }
    if ext.len() == 2 && (ext[0] == 'm' || ext[0] == 'M') && (ext[1] == 'd' || ext[1] == 'D') {
        assert forall|i: int| 0 <= i < 2 implies ascii_lower_code(#[trigger] ext[i]) == md[i] as int by {
        }
    }
}

/// Decides on the name of an uploaded file: it must have one, and its
/// extension must be `pdf` or `md` in any letter case.
pub fn check_upload_name(file_name: Option<&str>) -> (checked: Result<String, IngestError>)
    ensures
        match file_name {
            None => checked == Err::<String, IngestError>(IngestError::NoFilename),
            Some(name) => if is_supported_extension(extension_of(name@)) {
                checked matches Ok(s) && s@ == name@
            } else {
                checked == Err::<String, IngestError>(IngestError::UnsupportedFileType)
            },
        },
{
    match file_name {
        None => Err(IngestError::NoFilename),
        Some(name) => {
            let ext = file_extension(name);
            if is_supported_file_type(ext.as_str()) {
                Ok(String::from_str(name))
            } else {
                Err(IngestError::UnsupportedFileType)
            }
        },
    }
}

/// Decodes an uploaded document leniently and cuts it into chunks of
/// `CHUNK_SIZE` with `CHUNK_OVERLAP`; `None` when a chunk would start or end
/// inside a character, where cutting the text is not defined.
pub fn chunk_upload(bytes: &[u8]) -> (chunks: Option<Vec<String>>)
    ensures
        chunks is None <==> !chunking_defined(
            encode_utf8(utf8_lossy(bytes@)),
            CHUNK_SIZE,
            CHUNK_OVERLAP,
        ),
        valid_utf8(bytes@) ==> encode_utf8(utf8_lossy(bytes@)) == bytes@,
        (forall|i: int| 0 <= i < bytes@.len() ==> #[trigger] bytes@[i] < 128) ==> chunks is Some,
        chunks matches Some(c) ==> {
            &&& c.len() == chunk_windows(
                encode_utf8(utf8_lossy(bytes@)),
                CHUNK_SIZE,
                CHUNK_OVERLAP,
            ).len()
            &&& forall|i: int|
                0 <= i < c.len() ==> encode_utf8(#[trigger] c[i]@) == chunk_windows(
                    encode_utf8(utf8_lossy(bytes@)),
                    CHUNK_SIZE,
                    CHUNK_OVERLAP,
                )[i]
        },
{
    let text = decode_utf8_lossy(bytes);
    let s = text.as_str();
    proof {
        if valid_utf8(bytes@) {
            decode_utf8_encode_utf8(bytes@);
        }
        if forall|i: int| 0 <= i < bytes@.len() ==> #[trigger] bytes@[i] < 128 {
            lemma_ascii_bytes_chunkable(bytes@);
        }
    }
    if can_chunk(s, CHUNK_SIZE, CHUNK_OVERLAP) {
        Some(chunk_with_overlap(s, CHUNK_SIZE, CHUNK_OVERLAP))
    } else {
        None
    }
}

/// ASCII bytes are valid UTF-8 that decodes and encodes back to themselves,
/// and every byte offset of them is a character boundary, so cutting them
/// into chunks is defined.
pub proof fn lemma_ascii_bytes_chunkable(bytes: Seq<u8>)
    requires
        forall|i: int| 0 <= i < bytes.len() ==> #[trigger] bytes[i] < 128,
    ensures
        valid_utf8(bytes),
        encode_utf8(decode_utf8(bytes)) == bytes,
        chunking_defined(bytes, CHUNK_SIZE, CHUNK_OVERLAP),
{
    assert(bytes.subrange(0, 0) =~= Seq::<u8>::empty());
    partial_valid_utf8_extend_ascii_block(bytes, 0, bytes.len() as int);
    assert(bytes.subrange(0, bytes.len() as int) =~= bytes);
    assert(valid_utf8(bytes));
    decode_utf8_encode_utf8(bytes);
    let st = crate::chunking::chunk_stride(CHUNK_SIZE, CHUNK_OVERLAP);
    is_char_boundary_start_end_of_seq(bytes);
    assert forall|k: int| 0 <= k <= bytes.len() implies is_char_boundary(bytes, k) by {
        if k < bytes.len() {
            is_char_boundary_iff_is_leading_byte(bytes, k);
        }
    }
    assert forall|i: int|
        0 <= i < crate::chunking::chunk_count(bytes.len() as int, st) implies {
        &&& is_char_boundary(bytes, #[trigger] crate::chunking::chunk_start(i, st))
        &&& is_char_boundary(
            bytes,
            crate::chunking::chunk_end(bytes.len() as int, CHUNK_SIZE, CHUNK_OVERLAP, i),
        )
    } by {
        crate::chunking::lemma_chunk_index(bytes.len() as int, st, i);
    }
}

} // verus!
