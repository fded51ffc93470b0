use fixmatch::codec::{parse, to_bytes};
use fixmatch::store::{MatchRecord, RecordCollection, StoreError};

fn rec(error: &[u8], fix: &[u8], emb: Vec<i32>) -> MatchRecord {
    MatchRecord {
        error_text: error.to_vec(),
        fix_text: fix.to_vec(),
        embedding: emb,
    }
}

fn collection(recs: Vec<MatchRecord>) -> RecordCollection {
    let mut c = RecordCollection::new();
    for r in recs {
        c.append(r).unwrap();
    }
    c
}

#[test]
fn exact_rendering_of_one_record() {
    let c = collection(vec![rec(b"e", b"f", vec![1, -2])]);
    assert_eq!(to_bytes(&c), b"e\nf\n1 -2\n".to_vec());
}

#[test]
fn empty_collection_renders_empty_and_parses_back() {
    let c = RecordCollection::new();
    assert_eq!(to_bytes(&c), Vec::<u8>::new());
    let back = parse(&Vec::new()).unwrap();
    assert_eq!(back.len(), 0);
}

#[test]
fn round_trip_preserves_records_in_order() {
    let c = collection(vec![
        rec(
            b"cannot borrow `x` as mutable",
            b"clone before the loop",
            vec![32768, -32768, 0],
        ),
        rec(b"path\\with\\slashes", b"multi\nline\nfix", vec![1, 2, 3]),
        rec(b"pending", b"", vec![]),
    ]);
    let bytes = to_bytes(&c);
    let back = parse(&bytes).unwrap();
    assert_eq!(back.len(), 3);
    for i in 0..3 {
        assert_eq!(back.get(i).error_text, c.get(i).error_text);
        assert_eq!(back.get(i).fix_text, c.get(i).fix_text);
        assert_eq!(back.get(i).embedding, c.get(i).embedding);
    }
}

#[test]
fn round_trip_after_append() {
    let mut c = collection(vec![rec(b"first", b"fix one", vec![5, 6])]);
    c.append(rec(b"second", b"fix two", vec![7, 8])).unwrap();
    let back = parse(&to_bytes(&c)).unwrap();
    assert_eq!(back.len(), 2);
    assert_eq!(back.get(1).error_text, b"second".to_vec());
    assert_eq!(back.get(1).embedding, vec![7, 8]);
}

#[test]
fn malformed_content_is_a_parse_error() {
    // Not a list of records at all.
    assert!(matches!(
        parse(&b"this is not a record file".to_vec()),
        Err(StoreError::StorageParse)
    ));
    // Truncated: a record needs three terminated lines.
    assert!(matches!(
        parse(&b"e\nf\n".to_vec()),
        Err(StoreError::StorageParse)
    ));
    // A stray escape.
    assert!(matches!(
        parse(&b"bad\\escape\nf\n1\n".to_vec()),
        Err(StoreError::StorageParse)
    ));
    // Not a number on the embedding line.
    assert!(matches!(
        parse(&b"e\nf\none two\n".to_vec()),
        Err(StoreError::StorageParse)
    ));
}

#[test]
fn non_canonical_numbers_are_rejected() {
    // Leading zeros and negative zero never come out of the renderer.
    assert!(matches!(
        parse(&b"e\nf\n01\n".to_vec()),
        Err(StoreError::StorageParse)
    ));
    assert!(matches!(
        parse(&b"e\nf\n-0\n".to_vec()),
        Err(StoreError::StorageParse)
    ));
    assert!(matches!(
        parse(&b"e\nf\n1 \n".to_vec()),
        Err(StoreError::StorageParse)
    ));
}

#[test]
fn invalid_records_are_rejected_even_when_shaped_right() {
    // Empty error text.
    assert!(matches!(
        parse(&b"\nf\n1\n".to_vec()),
        Err(StoreError::StorageParse)
    ));
    // Inconsistent dimensionality across records.
    assert!(matches!(
        parse(&b"a\nfa\n1 2\nb\nfb\n1\n".to_vec()),
        Err(StoreError::StorageParse)
    ));
    // Component outside the fixed-point range.
    assert!(matches!(
        parse(&b"a\nfa\n50000\n".to_vec()),
        Err(StoreError::StorageParse)
    ));
}

#[test]
fn parse_accepts_exactly_the_rendering() {
    let bytes = b"a\nfa\n1 2\n".to_vec();
    let c = parse(&bytes).unwrap();
    assert_eq!(to_bytes(&c), bytes);
}
