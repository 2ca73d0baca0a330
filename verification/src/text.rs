use vstd::prelude::*;
use vstd::string::*;
use vstd::std_specs::iter::IteratorSpec;

verus! {

broadcast use vstd::string::group_string_axioms;

/// The characters of `s`, in order.
pub(crate) fn chars_of(s: &str) -> (v: Vec<char>)
    ensures
        v@ == s@,
{
    let mut v: Vec<char> = Vec::new();
    for c in iter: s.chars()
        invariant
            v@ == iter.seq().take(iter.index() as int),
    {
        v.push(c);
    }
    assert(v@ =~= s@);
    v
}

/// The pieces of `s` between its newline characters, in order: there is
/// one more piece than there are newlines.
pub open spec fn newline_pieces(s: Seq<char>) -> Seq<Seq<char>>
    decreases s.len(),
{
    if s.len() == 0 {
        seq![Seq::empty()]
    } else {
        let init = newline_pieces(s.drop_last());
        if s.last() == '\n' {
            init.push(Seq::empty())
        } else {
            init.update(init.len() - 1, init.last().push(s.last()))
        }
    }
}

/// `line` without one trailing carriage return, if it has one.
pub open spec fn strip_carriage_return(line: Seq<char>) -> Seq<char> {
    if line.len() > 0 && line.last() == '\r' {
        line.drop_last()
    } else {
        line
    }
}

/// The lines of `s`: split at `\n` or `\r\n`, without the line endings; a
/// final line ending does not start another line, and a final line without
/// one is kept as it is.
pub open spec fn text_lines(s: Seq<char>) -> Seq<Seq<char>> {
    let pieces = newline_pieces(s);
    let ended = pieces.drop_last().map_values(|p: Seq<char>| strip_carriage_return(p));
    if pieces.last().len() == 0 {
        ended
    } else {
        ended.push(pieces.last())
    }
}

pub proof fn lemma_newline_pieces_nonempty(s: Seq<char>)
    ensures
        newline_pieces(s).len() >= 1,
    decreases s.len(),
{
    if s.len() > 0 {
        lemma_newline_pieces_nonempty(s.drop_last());
    }
}

/// Splits `text` into its lines, as `str::lines` does.
pub fn split_lines(text: &str) -> (lines: Vec<String>)
    ensures
        lines.len() == text_lines(text@).len(),
        forall|j: int| 0 <= j < lines.len() ==> #[trigger] lines[j]@ == text_lines(text@)[j],
{
    let chars = chars_of(text);
    let n = chars.len();
    let ghost s = text@;
    let mut lines: Vec<String> = Vec::new();
    let mut start: usize = 0;
    let mut i: usize = 0;
    proof {
        assert(s.take(0) =~= Seq::<char>::empty());
    }
    while i < n
        invariant
            chars@ == s,
            s == text@,
            n == s.len(),
            start <= i <= n,
            newline_pieces(s.take(i as int)).len() == lines.len() + 1,
            newline_pieces(s.take(i as int)).last() == s.subrange(start as int, i as int),
            forall|j: int|
                0 <= j < lines.len() ==> #[trigger] lines[j]@ == strip_carriage_return(
                    newline_pieces(s.take(i as int))[j],
                ),
        decreases n - i,
    {
        let ghost before = newline_pieces(s.take(i as int));
        proof {
            assert(s.take(i + 1).drop_last() =~= s.take(i as int));
            assert(s.take(i + 1).last() == s[i as int]);
            lemma_newline_pieces_nonempty(s.take(i as int));
        }
        if chars[i] == '\n' {
            let end = if i > start && chars[i - 1] == '\r' {
                i - 1
            } else {
                i
            };
            let piece = text.substring_char(start, end);
            let line = piece.to_owned();
            proof {
                assert(line@ =~= strip_carriage_return(before.last()));
            }
            lines.push(line);
            start = i + 1;
        } else {
            proof {
                assert(before.last().push(s[i as int]) =~= s.subrange(start as int, i + 1));
            }
        }
        i = i + 1;
    }
    proof {
        assert(s.take(n as int) =~= s);
    }
    if start < n {
        let piece = text.substring_char(start, n);
        lines.push(piece.to_owned());
    }
    proof {
        let pieces = newline_pieces(s);
        let expected = text_lines(s);
        assert(lines.len() == expected.len());
        assert forall|j: int| 0 <= j < lines.len() implies #[trigger] lines[j]@ == expected[j] by {
            if j < pieces.len() - 1 {
                assert(expected[j] == strip_carriage_return(pieces[j]));
            }
        }
    }
    lines
}

proof fn lemma_pieces_have_no_newline(s: Seq<char>)
    ensures
        forall|j: int, k: int|
            0 <= j < newline_pieces(s).len() && 0 <= k < newline_pieces(s)[j].len()
                ==> #[trigger] newline_pieces(s)[j][k] != '\n',
    decreases s.len(),
{
    if s.len() > 0 {
        lemma_pieces_have_no_newline(s.drop_last());
        lemma_newline_pieces_nonempty(s.drop_last());
    }
}

/// No line holds a newline character.
pub proof fn lemma_lines_have_no_newline(s: Seq<char>)
    ensures
        forall|j: int, k: int|
            0 <= j < text_lines(s).len() && 0 <= k < text_lines(s)[j].len()
                ==> #[trigger] text_lines(s)[j][k] != '\n',
{
    lemma_pieces_have_no_newline(s);
    lemma_newline_pieces_nonempty(s);
    let pieces = newline_pieces(s);
    assert forall|j: int, k: int|
        0 <= j < text_lines(s).len() && 0 <= k < text_lines(s)[j].len() implies #[trigger] text_lines(
        s,
    )[j][k] != '\n' by {
        if j < pieces.len() - 1 {
            assert(text_lines(s)[j] == strip_carriage_return(pieces[j]));
            assert(text_lines(s)[j][k] == pieces[j][k]);
        } else {
            assert(text_lines(s)[j] == pieces.last());
        }
    }
}

/// A final line ending is optional: ending a text (whose last character is
/// neither a newline nor a carriage return) with a newline gives the same
/// lines.
pub proof fn lemma_final_newline_optional(s: Seq<char>)
    requires
        s.len() > 0,
        s.last() != '\n',
        s.last() != '\r',
    ensures
        text_lines(s.push('\n')) == text_lines(s),
{
    let t = s.push('\n');
    assert(t.drop_last() =~= s);
    lemma_newline_pieces_nonempty(s);
    let ps = newline_pieces(s);
    let pt = newline_pieces(t);
    assert(pt == ps.push(Seq::<char>::empty()));
    let init = newline_pieces(s.drop_last());
    lemma_newline_pieces_nonempty(s.drop_last());
    assert(ps.last() == init.last().push(s.last()));
    assert(strip_carriage_return(ps.last()) == ps.last());
    assert(pt.drop_last() =~= ps);
    assert(text_lines(t) =~= ps.map_values(|p: Seq<char>| strip_carriage_return(p)));
    assert(text_lines(s) =~= ps.drop_last().map_values(|p: Seq<char>| strip_carriage_return(p))
        .push(ps.last()));
    assert(text_lines(t) =~= text_lines(s));
}

/// What `String::from_utf8_lossy` makes of `bytes`.
pub uninterp spec fn utf8_lossy(bytes: Seq<u8>) -> Seq<char>;

/// Calls `String::from_utf8_lossy`. Claimed: the result is a function of
/// the bytes alone (named `utf8_lossy`), and on valid UTF-8 it is the
/// decoded text, as the function's documentation says. How invalid
/// sequences are replaced by U+FFFD is left unsaid.
#[verifier::external_body]
pub(crate) fn decode_utf8_lossy(bytes: &[u8]) -> (text: String)
    ensures
        text@ == utf8_lossy(bytes@),
        vstd::utf8::valid_utf8(bytes@) ==> text@ == vstd::utf8::decode_utf8(bytes@),
{
    String::from_utf8_lossy(bytes).into_owned()
}

/// The lines of a piece of a response stream, decoded leniently.
pub fn stream_lines(bytes: &[u8]) -> (lines: Vec<String>)
    ensures
        lines.len() == text_lines(utf8_lossy(bytes@)).len(),
        forall|j: int|
            0 <= j < lines.len() ==> #[trigger] lines[j]@ == text_lines(utf8_lossy(bytes@))[j],
        vstd::utf8::valid_utf8(bytes@) ==> text_lines(utf8_lossy(bytes@)) == text_lines(
            vstd::utf8::decode_utf8(bytes@),
        ),
{
    let text = decode_utf8_lossy(bytes);
    split_lines(text.as_str())
}

} // verus!
