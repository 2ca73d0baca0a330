use vstd::prelude::*;
use vstd::string::*;

use crate::chunking::{chunk_count, lemma_chunk_index};
use crate::ids::{is_uuid_v4_text, random_u64, uuid_v4_text};

verus! {

/// Name of the vector collection that holds the document chunks.
pub const COLLECTION_NAME: &'static str = "stardust";

/// Dimension of the embedding vectors the collection is made for.
pub const EMBEDDING_DIM: u64 = 768;

/// How the collection compares embedding vectors.
#[derive(Debug, Clone, Copy, PartialEq, Eq, Structural)]
pub enum VectorDistance {
    Cosine,
}

/// The distance the collection is made with: cosine similarity.
pub const COLLECTION_DISTANCE: VectorDistance = VectorDistance::Cosine;

/// Number of points sent to the vector store in one upsert.
pub const BATCH_SIZE: usize = 5;

/// Number of similar chunks fetched for a chat prompt.
pub const TOP_K: usize = 5;

/// Whether the collection must be created at start-up, given whether it
/// already exists: only a missing collection is created.
pub fn must_create_collection(exists: bool) -> (create: bool)
    ensures
        create == !exists,
{
    !exists
}

/// The text of a chunk and the file it came from.
pub struct Payload {
    pub text: String,
    pub source: String,
}

/// A chunk ready to be stored: an id, its embedding vector and its payload.
/// `V` is the type of one vector component.
pub struct Points<V> {
    pub id: String,
    pub vector: Vec<V>,
    pub payload: Payload,
}

/// Builds the point of a chunk, or nothing when the embedding is empty
/// (the embedding service failed for this chunk).
pub fn build_point<V>(text: &str, source: &str, embedding: Vec<V>) -> (point: Option<Points<V>>)
    ensures
        point is None <==> embedding@.len() == 0,
        point matches Some(p) ==> {
            &&& is_uuid_v4_text(p.id@)
            &&& p.vector@ == embedding@
            &&& p.payload.text@ == text@
            &&& p.payload.source@ == source@
        },
{
    if embedding.len() == 0 {
        return None;
    }
    Some(
        Points {
            id: uuid_v4_text(),
            vector: embedding,
            payload: Payload { text: String::from_str(text), source: String::from_str(source) },
        },
    )
}

/// A point in the form the vector store takes it: a numeric id, the vector
/// and the payload as key/value entries.
pub struct StoredPoint<V> {
    pub id: u64,
    pub vector: Vec<V>,
    pub payload: Vec<(String, String)>,
}

/// The payload entries of a stored point: `text`, then `source`.
pub open spec fn payload_entries(text: Seq<char>, source: Seq<char>) -> Seq<(Seq<char>, Seq<char>)> {
    seq![("text"@, text), ("source"@, source)]
}

/// Turns a point into what the vector store takes: a random numeric id (the
/// point's own id is not stored), the same vector, and the payload entries.
pub fn to_stored_point<V>(point: Points<V>) -> (stored: StoredPoint<V>)
    ensures
        stored.vector@ == point.vector@,
        stored.payload@.map_values(|e: (String, String)| (e.0@, e.1@)) == payload_entries(
            point.payload.text@,
            point.payload.source@,
        ),
{
    let Points { id: _, vector, payload } = point;
    let Payload { text, source } = payload;
    let mut entries: Vec<(String, String)> = Vec::new();
    entries.push((String::from_str("text"), text));
    entries.push((String::from_str("source"), source));
    assert(entries@.map_values(|e: (String, String)| (e.0@, e.1@)) =~= payload_entries(
        point.payload.text@,
        point.payload.source@,
    ));
    StoredPoint { id: random_u64(), vector, payload: entries }
}

/// The half-open index ranges of the batches that `total` items are sent in,
/// `batch_size` items per batch, the last batch taking what is left.
pub open spec fn batch_range(total: int, batch_size: int, i: int) -> (int, int) {
    let end = (i + 1) * batch_size;
    (i * batch_size, if end < total { end } else { total })
}

/// Splits `total` items into consecutive batches of `batch_size`.
pub fn batch_ranges(total: usize, batch_size: usize) -> (ranges: Vec<(usize, usize)>)
    requires
        batch_size > 0,
    ensures
        ranges.len() == chunk_count(total as int, batch_size as int),
        forall|i: int|
            0 <= i < ranges.len() ==> (#[trigger] ranges[i]).0 == batch_range(
                total as int,
                batch_size as int,
                i,
            ).0 && ranges[i].1 == batch_range(total as int, batch_size as int, i).1,
{
    let mut ranges: Vec<(usize, usize)> = Vec::new();
    let ghost bs = batch_size as int;
    let mut start: usize = 0;
    let ghost mut i: int = 0;
    while start < total
        invariant
            batch_size > 0,
            bs == batch_size as int,
            0 <= i,
            i * bs < total ==> start == i * bs,
            i * bs >= total ==> start == total,
            i > 0 ==> (i - 1) * bs < total,
            total == 0 ==> i == 0,
            ranges.len() == i,
            forall|j: int|
                0 <= j < i ==> (#[trigger] ranges[j]).0 == batch_range(total as int, bs, j).0
                    && ranges[j].1 == batch_range(total as int, bs, j).1,
        decreases total - start,
    {
        proof {
            assert((i + 1) * bs == i * bs + bs) by (nonlinear_arith);
        }
        let end = if batch_size < total - start {
            start + batch_size
        } else {
            total
        };
        ranges.push((start, end));
        start = end;
        proof {
            i = i + 1;
        }
    }
    proof {
        if total > 0 {
            lemma_chunk_index(total as int, bs, i);
            lemma_chunk_index(total as int, bs, i - 1);
        }
    }
    ranges
}

/// The batches split the items exactly: there are `ceil(total / batch_size)`
/// of them, the first starts at item 0, each one starts where the one
/// before it ends, each holds between 1 and `batch_size` items, and the
/// last ends at `total`.
pub proof fn lemma_batches_partition(total: int, batch_size: int)
    requires
        total >= 0,
        batch_size > 0,
    ensures
        chunk_count(total, batch_size) == (total + batch_size - 1) / batch_size,
        chunk_count(total, batch_size) > 0 ==> batch_range(total, batch_size, 0).0 == 0,
        chunk_count(total, batch_size) > 0 ==> batch_range(
            total,
            batch_size,
            chunk_count(total, batch_size) - 1,
        ).1 == total,
        forall|i: int|
            0 <= i < chunk_count(total, batch_size) ==> {
                let r = #[trigger] batch_range(total, batch_size, i);
                r.0 < r.1 <= r.0 + batch_size
            },
        forall|i: int|
            0 <= i && i + 1 < chunk_count(total, batch_size) ==> #[trigger] batch_range(
                total,
                batch_size,
                i,
            ).1 == batch_range(total, batch_size, i + 1).0,
{
    let n = chunk_count(total, batch_size);
    if total == 0 {
        assert((total + batch_size - 1) / batch_size == 0) by (nonlinear_arith)
            requires total == 0, batch_size > 0;
    } else {
        assert((total - 1) / batch_size + 1 == (total + batch_size - 1) / batch_size) by {
            vstd::arithmetic::div_mod::lemma_div_plus_one(total - 1, batch_size);
        }
        lemma_chunk_index(total, batch_size, n - 1);
        lemma_chunk_index(total, batch_size, n);
        assert(n * batch_size == (n - 1) * batch_size + batch_size) by (nonlinear_arith);
    }
    assert forall|i: int| 0 <= i < n implies {
        let r = #[trigger] batch_range(total, batch_size, i);
        r.0 < r.1 <= r.0 + batch_size
    } by {
        lemma_chunk_index(total, batch_size, i);
        assert((i + 1) * batch_size == i * batch_size + batch_size) by (nonlinear_arith);
    }
    assert forall|i: int| 0 <= i && i + 1 < n implies #[trigger] batch_range(total, batch_size, i).1
        == batch_range(total, batch_size, i + 1).0 by {
        lemma_chunk_index(total, batch_size, i + 1);
    }
}

/// One result of a similarity query: the text and source found in its
/// payload, if they are there as text, and its score.
pub struct ScoredHit<S> {
    pub text: Option<String>,
    pub source: Option<String>,
    pub score: S,
}

/// The hits that carry both a text and a source, in order, as
/// `(text, source, score)`.
pub open spec fn usable_hits<S>(hits: Seq<ScoredHit<S>>) -> Seq<(Seq<char>, Seq<char>, S)>
    decreases hits.len(),
{
    if hits.len() == 0 {
        Seq::empty()
    } else {
        let rest = usable_hits(hits.drop_last());
        let last = hits.last();
        match (last.text, last.source) {
            (Some(t), Some(s)) => rest.push((t@, s@, last.score)),
            _ => rest,
        }
    }
}

/// Keeps the hits whose payload has both a text and a source.
pub fn collect_hits<S: Copy>(hits: &Vec<ScoredHit<S>>) -> (found: Vec<(String, String, S)>)
    ensures
        found.len() == usable_hits(hits@).len(),
        forall|i: int|
            0 <= i < found.len() ==> ((#[trigger] found[i]).0@, found[i].1@, found[i].2)
                == usable_hits(hits@)[i],
{
    let mut found: Vec<(String, String, S)> = Vec::new();
    let mut i: usize = 0;
    while i < hits.len()
        invariant
            i <= hits.len(),
            found.len() == usable_hits(hits@.take(i as int)).len(),
            forall|j: int|
                0 <= j < found.len() ==> ((#[trigger] found[j]).0@, found[j].1@, found[j].2)
                    == usable_hits(hits@.take(i as int))[j],
        decreases hits.len() - i,
    {
        proof {
            assert(hits@.take(i + 1).drop_last() =~= hits@.take(i as int));
            assert(hits@.take(i + 1).last() == hits@[i as int]);
        }
        let hit = &hits[i];
        match (&hit.text, &hit.source) {
            (Some(t), Some(s)) => {
                found.push((t.clone(), s.clone(), hit.score));
            },
            _ => {},
        }
        i = i + 1;
    }
    proof {
        assert(hits@.take(hits.len() as int) =~= hits@);
    }
    found
}

/// A hit is dropped only when its payload lacks a text or a source: when
/// every hit has both, all of them are kept, in order.
pub proof fn lemma_complete_hits_kept<S>(hits: Seq<ScoredHit<S>>)
    requires
        forall|i: int|
            0 <= i < hits.len() ==> (#[trigger] hits[i]).text is Some && hits[i].source is Some,
    ensures
        usable_hits(hits).len() == hits.len(),
        forall|i: int|
            0 <= i < hits.len() ==> #[trigger] usable_hits(hits)[i] == (
                hits[i].text->Some_0@,
                hits[i].source->Some_0@,
                hits[i].score,
            ),
    decreases hits.len(),
{
    if hits.len() > 0 {
        let init = hits.drop_last();
        assert forall|i: int| 0 <= i < init.len() implies (#[trigger] init[i]).text is Some
            && init[i].source is Some by {
            assert(init[i] == hits[i]);
        }
        lemma_complete_hits_kept(init);
        assert(hits.last() == hits[hits.len() - 1]);
    }
}

/// Never more hits come out than went in.
pub proof fn lemma_usable_hits_len<S>(hits: Seq<ScoredHit<S>>)
    ensures
        usable_hits(hits).len() <= hits.len(),
    decreases hits.len(),
{
    if hits.len() > 0 {
        lemma_usable_hits_len(hits.drop_last());
    }
}

} // verus!
