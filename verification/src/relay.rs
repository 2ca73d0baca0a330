use vstd::prelude::*;

verus! {

/// One line of the language model's streamed answer, once read as JSON.
pub struct LlmResponse {
    pub response: String,
    pub done: bool,
}

/// The messages relayed to a client for the lines of one piece of the
/// stream: each line read as a model response gives its text, and a
/// response that says it is done ends the piece; any other line is relayed
/// as it is.
pub open spec fn relayed(lines: Seq<String>, parsed: Seq<Option<LlmResponse>>) -> Seq<Seq<char>>
    decreases lines.len(),
{
    if lines.len() == 0 || parsed.len() == 0 {
        Seq::empty()
    } else {
        match parsed[0] {
            Some(r) => if r.done {
                seq![r.response@]
            } else {
                seq![r.response@] + relayed(lines.drop_first(), parsed.drop_first())
            },
            None => seq![lines[0]@] + relayed(lines.drop_first(), parsed.drop_first()),
        }
    }
}

/// Lines that do not read as model responses are relayed as they are, all
/// of them, in order.
pub proof fn lemma_relay_unparsed_lines(lines: Seq<String>, parsed: Seq<Option<LlmResponse>>)
    requires
        lines.len() == parsed.len(),
        forall|i: int| 0 <= i < parsed.len() ==> #[trigger] parsed[i] is None,
    ensures
        relayed(lines, parsed) == lines.map_values(|l: String| l@),
    decreases lines.len(),
{
    if lines.len() > 0 {
        assert forall|i: int| 0 <= i < parsed.drop_first().len() implies #[trigger] parsed.drop_first()[i] is None by {
            assert(parsed.drop_first()[i] == parsed[i + 1]);
        }
        lemma_relay_unparsed_lines(lines.drop_first(), parsed.drop_first());
        assert(parsed[0] is None);
        assert(relayed(lines, parsed) =~= lines.map_values(|l: String| l@));
    }
}

/// The first response that says it is done ends the piece: its text is the
/// last message relayed, and nothing after its line is relayed.
pub proof fn lemma_relay_stops_when_done(
    lines: Seq<String>,
    parsed: Seq<Option<LlmResponse>>,
    k: int,
)
    requires
        lines.len() == parsed.len(),
        0 <= k < parsed.len(),
        parsed[k] matches Some(r) && r.done,
        forall|i: int| 0 <= i < k ==> !(#[trigger] parsed[i] matches Some(r) && r.done),
    ensures
        relayed(lines, parsed) == relayed(lines.take(k + 1), parsed.take(k + 1)),
        relayed(lines, parsed).last() == parsed[k]->Some_0.response@,
    decreases k,
{
    if k == 0 {
        assert(parsed.take(1)[0] == parsed[0]);
    } else {
        assert forall|i: int| 0 <= i < k - 1 implies !(#[trigger] parsed.drop_first()[i] matches Some(
            r,
        ) && r.done) by {
            assert(parsed.drop_first()[i] == parsed[i + 1]);
        }
        lemma_relay_stops_when_done(lines.drop_first(), parsed.drop_first(), k - 1);
        assert(lines.take(k + 1).drop_first() =~= lines.drop_first().take(k));
        assert(parsed.take(k + 1).drop_first() =~= parsed.drop_first().take(k));
        assert(lines.take(k + 1)[0] == lines[0]);
        assert(parsed.take(k + 1)[0] == parsed[0]);
        assert(!(parsed[0] matches Some(r) && r.done));
    }
}

/// Every relayed message belongs to the line at the same position: a line
/// read as a model response gives exactly that response's text, done or
/// not, any other line gives itself; and no line before it was a response
/// that said it was done.
pub proof fn lemma_relay_message_per_line(
    lines: Seq<String>,
    parsed: Seq<Option<LlmResponse>>,
    k: int,
)
    requires
        lines.len() == parsed.len(),
        0 <= k < relayed(lines, parsed).len(),
    ensures
        k < lines.len(),
        relayed(lines, parsed)[k] == match parsed[k] {
            Some(r) => r.response@,
            None => lines[k]@,
        },
        forall|j: int| 0 <= j < k ==> !(#[trigger] parsed[j] matches Some(r) && r.done),
    decreases k,
{
    if k > 0 {
        let rest = relayed(lines.drop_first(), parsed.drop_first());
        if parsed[0] matches Some(r) && r.done {
            assert(relayed(lines, parsed).len() == 1);
        }
        assert(relayed(lines, parsed)[k] == rest[k - 1]);
        lemma_relay_message_per_line(lines.drop_first(), parsed.drop_first(), k - 1);
        assert(parsed.drop_first()[k - 1] == parsed[k]);
        assert(lines.drop_first()[k - 1] == lines[k]);
        assert forall|j: int| 0 <= j < k implies !(#[trigger] parsed[j] matches Some(r) && r.done) by {
            if j > 0 {
                assert(parsed.drop_first()[j - 1] == parsed[j]);
            }
        }
    }
}

/// One message is relayed per line, up to and including the first response
/// that says it is done; when no response says so, every line gives one.
pub proof fn lemma_relay_count(lines: Seq<String>, parsed: Seq<Option<LlmResponse>>)
    requires
        lines.len() == parsed.len(),
    ensures
        relayed(lines, parsed).len() <= lines.len(),
        (forall|j: int| 0 <= j < parsed.len() ==> !(#[trigger] parsed[j] matches Some(r) && r.done))
            ==> relayed(lines, parsed).len() == lines.len(),
    decreases lines.len(),
{
    if lines.len() > 0 {
        lemma_relay_count(lines.drop_first(), parsed.drop_first());
        if forall|j: int| 0 <= j < parsed.len() ==> !(#[trigger] parsed[j] matches Some(r) && r.done) {
            assert forall|j: int| 0 <= j < parsed.drop_first().len() implies !(
            #[trigger] parsed.drop_first()[j] matches Some(r) && r.done) by {
                assert(parsed.drop_first()[j] == parsed[j + 1]);
            }
            assert(!(parsed[0] matches Some(r) && r.done));
        }
    }
}

/// The messages to send a client for the lines of one piece of the stream;
/// `parsed[i]` is line `i` read as a model response, when it reads as one.
pub fn relay_messages(lines: &Vec<String>, parsed: &Vec<Option<LlmResponse>>) -> (out: Vec<String>)
    requires
        lines.len() == parsed.len(),
    ensures
        out.len() == relayed(lines@, parsed@).len(),
        forall|j: int| 0 <= j < out.len() ==> #[trigger] out[j]@ == relayed(lines@, parsed@)[j],
{
    let mut out: Vec<String> = Vec::new();
    let mut i: usize = 0;
    let ghost target = relayed(lines@, parsed@);
    proof {
        assert(lines@.skip(0) =~= lines@);
        assert(parsed@.skip(0) =~= parsed@);
        assert(out@.map_values(|s: String| s@) =~= Seq::<Seq<char>>::empty());
        assert(target =~= out@.map_values(|s: String| s@) + target);
    }
    while i < lines.len()
        invariant
            lines.len() == parsed.len(),
            i <= lines.len(),
            target == relayed(lines@, parsed@),
            target == out@.map_values(|s: String| s@) + relayed(
                lines@.skip(i as int),
                parsed@.skip(i as int),
            ),
        decreases lines.len() - i,
    {
        let ghost rest_l = lines@.skip(i as int);
        let ghost rest_p = parsed@.skip(i as int);
        proof {
            assert(rest_l.drop_first() =~= lines@.skip(i + 1));
            assert(rest_p.drop_first() =~= parsed@.skip(i + 1));
            assert(rest_l[0] == lines@[i as int]);
            assert(rest_p[0] == parsed@[i as int]);
        }
        match &parsed[i] {
            Some(r) => {
                let ghost before = out@.map_values(|s: String| s@);
                out.push(r.response.clone());
                assert(out@.map_values(|s: String| s@) =~= before.push(r.response@));
                if r.done {
                    assert(target =~= out@.map_values(|s: String| s@));
                    return out;
                }
                assert(target =~= out@.map_values(|s: String| s@) + relayed(
                    lines@.skip(i + 1),
                    parsed@.skip(i + 1),
                ));
            },
            None => {
                let ghost before = out@.map_values(|s: String| s@);
                out.push(lines[i].clone());
                assert(out@.map_values(|s: String| s@) =~= before.push(lines@[i as int]@));
                assert(target =~= out@.map_values(|s: String| s@) + relayed(
                    lines@.skip(i + 1),
                    parsed@.skip(i + 1),
                ));
            },
        }
        i = i + 1;
    }
    assert(target =~= out@.map_values(|s: String| s@));
    out
}

} // verus!
