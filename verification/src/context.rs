use vstd::prelude::*;
use vstd::string::*;

verus! {

/// Text placed between two retrieved chunks in a context.
pub open spec fn context_separator() -> Seq<char> {
    "\n\n---\n\n"@
}

/// How one retrieved chunk appears in a context: a header naming its
/// source and score, then its text on the next line.
pub open spec fn context_entry(text: Seq<char>, source: Seq<char>, score: Seq<char>) -> Seq<char> {
    "[Source: "@ + source + " | Score: "@ + score + "]\n"@ + text
}

/// `parts` joined with `sep` between each two of them.
pub open spec fn join_with(parts: Seq<Seq<char>>, sep: Seq<char>) -> Seq<char>
    decreases parts.len(),
{
    if parts.len() == 0 {
        Seq::empty()
    } else if parts.len() == 1 {
        parts[0]
    } else {
        join_with(parts.drop_last(), sep) + sep + parts.last()
    }
}

/// The entries of `chunks`, given as `(text, source, formatted score)`.
pub open spec fn context_entries(chunks: Seq<(String, String, String)>) -> Seq<Seq<char>> {
    chunks.map_values(|c: (String, String, String)| context_entry(c.0@, c.1@, c.2@))
}

/// The context handed to the language model: the entries of the retrieved
/// chunks, in order, separated by a horizontal rule.
pub open spec fn context_text(chunks: Seq<(String, String, String)>) -> Seq<char> {
    join_with(context_entries(chunks), context_separator())
}

/// Builds the retrieval context from `(text, source, score)` triples whose
/// score is already written with two decimals.
pub fn build_context(chunks: Vec<(String, String, String)>) -> (context: String)
    ensures
        context@ == context_text(chunks@),
{
    let mut context = String::new();
    let mut i: usize = 0;
    while i < chunks.len()
        invariant
            i <= chunks.len(),
            context@ == join_with(context_entries(chunks@.take(i as int)), context_separator()),
        decreases chunks.len() - i,
    {
        let ghost before = context_entries(chunks@.take(i as int));
        let ghost after = context_entries(chunks@.take(i + 1));
        proof {
            assert(after.drop_last() =~= before);
        }
        if i > 0 {
            context.append("\n\n---\n\n");
        }
        let (text, source, score) = &chunks[i];
        context.append("[Source: ");
        context.append(source.as_str());
        context.append(" | Score: ");
        context.append(score.as_str());
        context.append("]\n");
        context.append(text.as_str());
        proof {
            assert(after.last() == context_entry(text@, source@, score@));
            if i == 0 {
                assert(before.len() == 0);
                assert(context@ =~= after[0]);
            } else {
                assert(context@ =~= join_with(before, context_separator()) + context_separator()
                    + after.last());
            }
        }
        i = i + 1;
    }
    proof {
        assert(chunks@.take(chunks.len() as int) =~= chunks@);
    }
    context
}

/// Joining two non-empty lists of parts is joining each, then joining the
/// results.
pub proof fn lemma_join_append(p: Seq<Seq<char>>, q: Seq<Seq<char>>, sep: Seq<char>)
    requires
        p.len() > 0,
        q.len() > 0,
    ensures
        join_with(p + q, sep) == join_with(p, sep) + sep + join_with(q, sep),
    decreases q.len(),
{
    if q.len() == 1 {
        assert((p + q).drop_last() =~= p);
        assert((p + q).last() == q[0]);
    } else {
        lemma_join_append(p, q.drop_last(), sep);
        assert((p + q).drop_last() =~= p + q.drop_last());
        assert((p + q).last() == q.last());
        assert(join_with(p, sep) + sep + join_with(q.drop_last(), sep) + sep + q.last()
            =~= join_with(p, sep) + sep + (join_with(q.drop_last(), sep) + sep + q.last()));
    }
}

/// The context of two non-empty lists of retrieved chunks, one after the
/// other, is the context of the first, a separator, and the context of the
/// second: each chunk appears once, in order, fenced off from its neighbours.
pub proof fn lemma_context_of_concat(
    a: Seq<(String, String, String)>,
    b: Seq<(String, String, String)>,
)
    requires
        a.len() > 0,
        b.len() > 0,
    ensures
        context_text(a + b) == context_text(a) + context_separator() + context_text(b),
{
    assert(context_entries(a + b) =~= context_entries(a) + context_entries(b));
    lemma_join_append(context_entries(a), context_entries(b), context_separator());
}

/// The context of a single retrieved chunk is its entry alone.
pub proof fn lemma_context_of_one(c: (String, String, String))
    ensures
        context_text(seq![c]) == context_entry(c.0@, c.1@, c.2@),
{
    assert(context_entries(seq![c]) =~= seq![context_entry(c.0@, c.1@, c.2@)]);
}

/// The context ends with the whole text of the last chunk, right after the
/// `]` and line break that close its header.
pub proof fn lemma_context_ends_with_last_text(chunks: Seq<(String, String, String)>)
    requires
        chunks.len() > 0,
    ensures
        ({
            let ctx = context_text(chunks);
            let text = chunks.last().0@;
            &&& ctx.len() >= text.len() + 2
            &&& ctx.subrange(ctx.len() - text.len(), ctx.len() as int) == text
            &&& ctx[ctx.len() - text.len() - 2] == ']'
            &&& ctx[ctx.len() - text.len() - 1] == '\n'
        }),
{
    let entries = context_entries(chunks);
    let c = chunks.last();
    let head = "[Source: "@ + c.1@ + " | Score: "@ + c.2@ + "]\n"@;
    reveal_strlit("]\n");
    assert(entries.last() == head + c.0@);
    let ctx = context_text(chunks);
    if chunks.len() == 1 {
        assert(ctx == entries[0]);
    } else {
        assert(ctx == join_with(entries.drop_last(), context_separator()) + context_separator()
            + entries.last());
    }
    let pre = ctx.len() - (head + c.0@).len();
    assert(ctx.subrange(pre, ctx.len() as int) =~= head + c.0@);
    assert(ctx.subrange(ctx.len() - c.0@.len(), ctx.len() as int) =~= c.0@);
    assert(head[head.len() - 2] == ']');
    assert(head[head.len() - 1] == '\n');
    assert(ctx[ctx.len() - c.0@.len() - 2] == head[head.len() - 2]);
    assert(ctx[ctx.len() - c.0@.len() - 1] == head[head.len() - 1]);
}

/// Every chunk's whole text occurs in the context.
pub proof fn lemma_context_contains_each_text(chunks: Seq<(String, String, String)>, i: int)
    requires
        0 <= i < chunks.len(),
    ensures
        exists|off: int|
            0 <= off && off + chunks[i].0@.len() <= context_text(chunks).len()
                && #[trigger] context_text(chunks).subrange(off, off + chunks[i].0@.len())
                == chunks[i].0@,
    decreases chunks.len(),
{
    let ctx = context_text(chunks);
    let text = chunks[i].0@;
    if i == chunks.len() - 1 {
        lemma_context_ends_with_last_text(chunks);
        let off = ctx.len() - text.len();
        assert(ctx.subrange(off, off + text.len()) == text);
    } else {
        let init = chunks.drop_last();
        lemma_context_contains_each_text(init, i);
        assert(init[i] == chunks[i]);
        let off = choose|off: int|
            0 <= off && off + text.len() <= context_text(init).len()
                && #[trigger] context_text(init).subrange(off, off + text.len()) == text;
        assert(context_entries(chunks).drop_last() =~= context_entries(init));
        assert(ctx == context_text(init) + context_separator() + context_entries(chunks).last());
        assert(ctx.subrange(off, off + text.len()) =~= context_text(init).subrange(
            off,
            off + text.len(),
        ));
    }
}

} // verus!
