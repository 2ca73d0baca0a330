use stardust::ids::{client_id_message, new_client_id};
use stardust::store::{
    batch_ranges, build_point, collect_hits, to_stored_point, ScoredHit, BATCH_SIZE,
};

fn is_uuid_v4(s: &str) -> bool {
    let b = s.as_bytes();
    b.len() == 36
        && b.iter().enumerate().all(|(i, c)| match i {
            8 | 13 | 18 | 23 => *c == b'-',
            _ => c.is_ascii_digit() || (b'a'..=b'f').contains(c),
        })
        && b[14] == b'4'
        && matches!(b[19], b'8' | b'9' | b'a' | b'b')
}

#[test]
fn point_needs_an_embedding() {
    assert!(build_point::<f32>("t", "s", vec![]).is_none());
    let p = build_point("text", "file.md", vec![0.5f32, -1.0]).expect("non-empty embedding");
    assert_eq!(p.vector, vec![0.5f32, -1.0]);
    assert_eq!(p.payload.text, "text");
    assert_eq!(p.payload.source, "file.md");
    assert!(is_uuid_v4(&p.id), "{}", p.id);
}

#[test]
fn stored_point_keeps_vector_and_payload() {
    let p = build_point("chunk", "doc.pdf", vec![1u32, 2, 3]).unwrap();
    let s = to_stored_point(p);
    assert_eq!(s.vector, vec![1u32, 2, 3]);
    assert_eq!(
        s.payload,
        vec![
            ("text".to_string(), "chunk".to_string()),
            ("source".to_string(), "doc.pdf".to_string())
        ]
    );
}

#[test]
fn batches_of_five() {
    assert_eq!(batch_ranges(12, BATCH_SIZE), vec![(0, 5), (5, 10), (10, 12)]);
    assert_eq!(batch_ranges(10, BATCH_SIZE), vec![(0, 5), (5, 10)]);
    assert!(batch_ranges(0, BATCH_SIZE).is_empty());
    assert_eq!(batch_ranges(3, BATCH_SIZE), vec![(0, 3)]);
}

#[test]
fn batch_count_is_rounded_up() {
    for total in 0..40usize {
        assert_eq!(batch_ranges(total, BATCH_SIZE).len(), (total + BATCH_SIZE - 1) / BATCH_SIZE);
    }
}

#[test]
fn hits_without_text_or_source_are_dropped() {
    let hits = vec![
        ScoredHit { text: Some("a".to_string()), source: Some("s".to_string()), score: 0.9f32 },
        ScoredHit { text: None, source: Some("s".to_string()), score: 0.8 },
        ScoredHit { text: Some("c".to_string()), source: None, score: 0.7 },
        ScoredHit { text: Some("d".to_string()), source: Some("t".to_string()), score: 0.6 },
    ];
    let found = collect_hits(&hits);
    assert_eq!(
        found,
        vec![
            ("a".to_string(), "s".to_string(), 0.9f32),
            ("d".to_string(), "t".to_string(), 0.6f32)
        ]
    );
}

#[test]
fn client_ids_and_greeting() {
    let a = new_client_id();
    let b = new_client_id();
    assert!(is_uuid_v4(&a) && is_uuid_v4(&b));
    assert_ne!(a, b);
    assert_eq!(client_id_message("abc"), "CLIENT_ID:abc");
}

#[test]
fn only_a_missing_collection_is_created() {
    assert!(stardust::store::must_create_collection(false));
    assert!(!stardust::store::must_create_collection(true));
}

#[test]
fn collection_uses_cosine_distance() {
    assert_eq!(stardust::store::COLLECTION_DISTANCE, stardust::store::VectorDistance::Cosine);
    assert_eq!(stardust::store::EMBEDDING_DIM, 768);
}
