use stardust::chunking::{can_chunk, chunk_with_overlap};
use stardust::ingest::{chunk_upload, CHUNK_OVERLAP, CHUNK_SIZE};

#[test]
fn chunks_of_short_text_overlap() {
    let chunks = chunk_with_overlap("abcdefghij", 4, 1);
    assert_eq!(chunks, vec!["abcde", "defgh", "ghij", "j"]);
}

#[test]
fn chunks_without_overlap_are_disjoint() {
    let chunks = chunk_with_overlap("abcdefg", 3, 0);
    assert_eq!(chunks, vec!["abc", "def", "g"]);
}

#[test]
fn chunks_of_empty_text() {
    assert!(chunk_with_overlap("", 300, 70).is_empty());
    assert!(can_chunk("", 0, 5));
}

#[test]
fn chunk_count_is_ceiling_of_length_over_stride() {
    let text = "x".repeat(1000);
    let chunks = chunk_with_overlap(&text, 300, 70);
    // stride 230: starts 0, 230, 460, 690, 920
    assert_eq!(chunks.len(), 5);
    assert_eq!(chunks[0].len(), 370);
    assert_eq!(chunks[2].len(), 370);
    assert_eq!(chunks[3].len(), 310);
    assert_eq!(chunks[4].len(), 80);
}

#[test]
fn chunks_reassemble_to_text() {
    let text = "The quick brown fox jumps over the lazy dog.";
    let (size, overlap) = (7, 2);
    let stride = size - overlap;
    let chunks = chunk_with_overlap(text, size, overlap);
    let mut rebuilt = String::new();
    for (i, c) in chunks.iter().enumerate() {
        if i + 1 < chunks.len() {
            rebuilt.push_str(&c[..stride]);
        } else {
            rebuilt.push_str(c);
        }
    }
    assert_eq!(rebuilt, text);
}

#[test]
fn consecutive_chunks_share_bytes() {
    let chunks = chunk_with_overlap("0123456789", 4, 1);
    // window 5, stride 3: chunk 0 = 01234, chunk 1 = 34567
    assert_eq!(&chunks[0][3..], &chunks[1][..2]);
}

#[test]
fn can_chunk_rejects_stride_zero_or_negative() {
    assert!(!can_chunk("abc", 5, 5));
    assert!(!can_chunk("abc", 2, 3));
    assert!(can_chunk("abc", 3, 2));
}

#[test]
fn can_chunk_rejects_split_character() {
    // "é" takes two bytes; a window of 1 byte would end inside it
    assert!(!can_chunk("é", 1, 0));
    assert!(can_chunk("é", 2, 0));
    assert_eq!(chunk_with_overlap("éa", 2, 0), vec!["é", "a"]);
}

#[test]
fn upload_chunks_with_fixed_sizes() {
    let bytes = vec![b'a'; 400];
    let chunks = chunk_upload(&bytes).expect("ASCII is always cut");
    assert_eq!(chunks.len(), 2);
    assert_eq!(chunks[0].len(), CHUNK_SIZE + CHUNK_OVERLAP);
    assert_eq!(chunks[1].len(), 400 - (CHUNK_SIZE - CHUNK_OVERLAP));
}

#[test]
fn upload_with_invalid_utf8_is_decoded_leniently() {
    let bytes = vec![b'h', b'i', 0xff];
    let chunks = chunk_upload(&bytes).expect("short text fits in one chunk");
    assert_eq!(chunks, vec!["hi\u{fffd}"]);
}

#[test]
fn upload_split_inside_character_is_refused() {
    // 229 ASCII bytes then a two-byte character: the second chunk would
    // start at byte 230, inside that character
    let mut text = "a".repeat(229);
    text.push('é');
    text.push_str(&"b".repeat(50));
    assert!(chunk_upload(text.as_bytes()).is_none());
}

#[test]
fn upload_of_nothing_has_no_chunks() {
    assert_eq!(chunk_upload(&[]), Some(vec![]));
}
