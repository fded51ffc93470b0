use fixmatch::store::{MatchRecord, RecordCollection, StoreError};

fn rec(error: &str, fix: &str, emb: Vec<i32>) -> MatchRecord {
    MatchRecord {
        error_text: error.as_bytes().to_vec(),
        fix_text: fix.as_bytes().to_vec(),
        embedding: emb,
    }
}

#[test]
fn append_and_read_back() {
    let mut c = RecordCollection::new();
    assert_eq!(c.len(), 0);
    c.append(rec("mismatched types", "check the annotations", vec![1, 2]))
        .unwrap();
    assert_eq!(c.len(), 1);
    assert_eq!(c.get(0).error_text, b"mismatched types".to_vec());
    assert_eq!(c.get(0).fix_text, b"check the annotations".to_vec());
    assert_eq!(c.get(0).embedding, vec![1, 2]);
    assert!(c.is_wf());
}

#[test]
fn append_rejects_empty_error_text() {
    let mut c = RecordCollection::new();
    let r = c.append(rec("", "some fix", vec![1, 2]));
    assert_eq!(r, Err(StoreError::EmptyErrorText));
    assert_eq!(c.len(), 0);
}

#[test]
fn append_rejects_dimension_mismatch() {
    let mut c = RecordCollection::new();
    c.append(rec("a", "fa", vec![1, 2])).unwrap();
    let r = c.append(rec("b", "fb", vec![1, 2, 3]));
    assert_eq!(r, Err(StoreError::DimensionMismatch));
    assert_eq!(c.len(), 1);
}

#[test]
fn append_rejects_component_out_of_range() {
    let mut c = RecordCollection::new();
    let r = c.append(rec("a", "fa", vec![40000, 0]));
    assert_eq!(r, Err(StoreError::ComponentOutOfRange));
    assert_eq!(c.len(), 0);
}

#[test]
fn append_allows_missing_embedding() {
    let mut c = RecordCollection::new();
    c.append(rec("a", "fa", vec![1, 2])).unwrap();
    c.append(rec("b", "fb", vec![])).unwrap();
    assert_eq!(c.len(), 2);
    assert_eq!(c.count_missing(), 1);
}

#[test]
fn backfill_fills_in_order_and_is_idempotent() {
    let mut c = RecordCollection::new();
    c.append(rec("a", "fa", vec![])).unwrap();
    c.append(rec("b", "fb", vec![7, 8])).unwrap();
    c.append(rec("c", "fc", vec![])).unwrap();

    let pending = c.pending_texts();
    assert_eq!(pending, vec![b"a".to_vec(), b"c".to_vec()]);

    let changed = c.apply_backfill(&vec![vec![1, 2], vec![3, 4]]).unwrap();
    assert!(changed);
    assert_eq!(c.get(0).embedding, vec![1, 2]);
    assert_eq!(c.get(1).embedding, vec![7, 8]);
    assert_eq!(c.get(2).embedding, vec![3, 4]);
    assert_eq!(c.count_missing(), 0);

    // A second run with a stable provider has nothing to encode and
    // changes nothing.
    assert_eq!(c.pending_texts(), Vec::<Vec<u8>>::new());
    let changed_again = c.apply_backfill(&vec![]).unwrap();
    assert!(!changed_again);
    assert_eq!(c.get(0).embedding, vec![1, 2]);
    assert_eq!(c.get(1).embedding, vec![7, 8]);
    assert_eq!(c.get(2).embedding, vec![3, 4]);
    assert_eq!(c.get(0).error_text, b"a".to_vec());
    assert_eq!(c.get(2).fix_text, b"fc".to_vec());
}

#[test]
fn backfill_rejects_wrong_count() {
    let mut c = RecordCollection::new();
    c.append(rec("a", "fa", vec![])).unwrap();
    let r = c.apply_backfill(&vec![]);
    assert_eq!(r, Err(StoreError::DimensionMismatch));
    assert_eq!(c.count_missing(), 1);
}

#[test]
fn backfill_rejects_mismatched_dimension() {
    let mut c = RecordCollection::new();
    c.append(rec("a", "fa", vec![1, 2])).unwrap();
    c.append(rec("b", "fb", vec![])).unwrap();
    let r = c.apply_backfill(&vec![vec![1, 2, 3]]);
    assert_eq!(r, Err(StoreError::DimensionMismatch));
    assert_eq!(c.count_missing(), 1);
}

#[test]
fn backfill_rejects_out_of_range_component() {
    let mut c = RecordCollection::new();
    c.append(rec("a", "fa", vec![])).unwrap();
    let r = c.apply_backfill(&vec![vec![-40000]]);
    assert_eq!(r, Err(StoreError::ComponentOutOfRange));
    assert_eq!(c.count_missing(), 1);
}

#[test]
fn error_messages_name_their_cause() {
    assert!(StoreError::StorageParse.message().contains("format"));
    assert!(StoreError::DimensionMismatch.message().contains("dimensionality"));
    assert!(StoreError::EmptyErrorText.message().contains("empty"));
    assert!(StoreError::ComponentOutOfRange.message().contains("range"));
}
