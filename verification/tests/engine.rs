use fixmatch::engine::find_best_match;
use fixmatch::similarity::meets_threshold;
use fixmatch::store::{MatchRecord, RecordCollection, StoreError};

fn rec(error: &str, fix: &str, emb: Vec<i32>) -> MatchRecord {
    MatchRecord {
        error_text: error.as_bytes().to_vec(),
        fix_text: fix.as_bytes().to_vec(),
        embedding: emb,
    }
}

fn collection(recs: Vec<MatchRecord>) -> RecordCollection {
    let mut c = RecordCollection::new();
    for r in recs {
        c.append(r).unwrap();
    }
    c
}

#[test]
fn empty_collection_has_no_match() {
    let c = RecordCollection::new();
    let q = vec![1, 0];
    assert_eq!(find_best_match(&c, &q), Ok(None));
}

#[test]
fn single_close_record_wins_with_its_score() {
    // cos((10,0), (9,4)) == 90 / (10 * sqrt(97)) ~ 0.914: the 0.9 range.
    let c = collection(vec![rec("the error", "the fix", vec![10, 0])]);
    let q = vec![9, 4];
    let best = find_best_match(&c, &q).unwrap();
    assert_eq!(best, Some(0));
    let emb = &c.get(0).embedding;
    assert!(meets_threshold(emb, &q, 9, 10));
    assert!(!meets_threshold(emb, &q, 95, 100));
}

#[test]
fn highest_similarity_wins_regardless_of_position() {
    let near = vec![9, 1];
    let far = vec![1, 9];
    let q = vec![10, 0];
    let c = collection(vec![rec("far", "ff", far.clone()), rec("near", "nf", near.clone())]);
    assert_eq!(find_best_match(&c, &q), Ok(Some(1)));
    let c2 = collection(vec![rec("near", "nf", near), rec("far", "ff", far)]);
    assert_eq!(find_best_match(&c2, &q), Ok(Some(0)));
}

#[test]
fn ties_go_to_the_record_inserted_first() {
    let q = vec![10, 0];
    let same = vec![7, 7];
    let c = collection(vec![
        rec("first", "f1", same.clone()),
        rec("second", "f2", same.clone()),
    ]);
    assert_eq!(find_best_match(&c, &q), Ok(Some(0)));
    // Even when a better record precedes the tied pair.
    let c2 = collection(vec![
        rec("low", "fl", vec![0, 10]),
        rec("first of tie", "f1", vec![9, 1]),
        rec("second of tie", "f2", vec![9, 1]),
    ]);
    assert_eq!(find_best_match(&c2, &q), Ok(Some(1)));
}

#[test]
fn all_negative_similarities_still_pick_the_best() {
    let q = vec![10, 0];
    let c = collection(vec![
        rec("worst", "fw", vec![-10, 0]),
        rec("less bad", "fl", vec![-5, 5]),
    ]);
    assert_eq!(find_best_match(&c, &q), Ok(Some(1)));
}

#[test]
fn mismatched_dimensions_are_an_integrity_error() {
    let c = collection(vec![rec("a", "fa", vec![1, 2, 3])]);
    let q = vec![1, 0];
    assert_eq!(find_best_match(&c, &q), Err(StoreError::DimensionMismatch));
    // A record still lacking its embedding is a mismatch too, not a skip.
    let c2 = collection(vec![rec("a", "fa", vec![])]);
    assert_eq!(find_best_match(&c2, &q), Err(StoreError::DimensionMismatch));
}
