use fixmatch::codec::{parse, to_bytes};
use fixmatch::engine::find_best_match;
use fixmatch::similarity::meets_threshold;
use fixmatch::flow::{
    decide, is_affirmative, is_quit, trim_bytes, Decision, CONFIDENCE_DEN, CONFIDENCE_NUM,
};
use fixmatch::store::{MatchRecord, RecordCollection};

fn rec(error: &str, fix: &str, emb: Vec<i32>) -> MatchRecord {
    MatchRecord {
        error_text: error.as_bytes().to_vec(),
        fix_text: fix.as_bytes().to_vec(),
        embedding: emb,
    }
}

#[test]
fn no_match_asks_to_teach() {
    let c = RecordCollection::new();
    let q = vec![1, 0];
    let d = decide(&c, &q, None, CONFIDENCE_NUM, CONFIDENCE_DEN);
    assert!(matches!(d, Decision::Teach { best: None }));
}

#[test]
fn confident_match_suggests_the_stored_fix() {
    // cos((100,0), (19,6)) == 1900 / (100 * sqrt(397)) ~ 0.9536: above 0.95.
    let mut c = RecordCollection::new();
    c.append(rec(
        "cannot move out of borrowed content",
        "borrow instead of moving",
        vec![100, 0],
    ))
    .unwrap();
    let q = vec![19, 6];
    let best = find_best_match(&c, &q).unwrap();
    assert_eq!(best, Some(0));
    assert!(meets_threshold(&c.get(0).embedding, &q, 95, 100));
    let d = decide(&c, &q, best, CONFIDENCE_NUM, CONFIDENCE_DEN);
    match d {
        Decision::Suggest { index } => {
            assert_eq!(index, 0);
            assert_eq!(c.get(index).fix_text, b"borrow instead of moving".to_vec());
        }
        Decision::Teach { .. } => panic!("expected a suggestion"),
    }
    // The store is unchanged by a suggestion.
    assert_eq!(c.len(), 1);
}

#[test]
fn score_exactly_at_threshold_counts_as_confident() {
    // cos((5,0), (4,3)) == 4/5 exactly; the threshold is inclusive.
    let mut c = RecordCollection::new();
    c.append(rec("e", "f", vec![5, 0])).unwrap();
    let q = vec![4, 3];
    let best = find_best_match(&c, &q).unwrap();
    let d = decide(&c, &q, best, CONFIDENCE_NUM, CONFIDENCE_DEN);
    assert!(matches!(d, Decision::Suggest { index: 0 }));
}

#[test]
fn low_score_asks_to_teach_with_the_best_index() {
    let mut c = RecordCollection::new();
    c.append(rec("e", "f", vec![0, 10])).unwrap();
    let q = vec![10, 1];
    let best = find_best_match(&c, &q).unwrap();
    assert_eq!(best, Some(0));
    let d = decide(&c, &q, best, CONFIDENCE_NUM, CONFIDENCE_DEN);
    assert!(matches!(d, Decision::Teach { best: Some(0) }));
}

#[test]
fn teaching_appends_one_record_and_persists() {
    // An empty store, a query with no matches, an operator-supplied fix.
    let mut c = RecordCollection::new();
    let query_text = "cannot find value `x` in this scope";
    let q = vec![1200, -340];
    assert_eq!(find_best_match(&c, &q), Ok(None));
    let d = decide(&c, &q, None, CONFIDENCE_NUM, CONFIDENCE_DEN);
    assert!(matches!(d, Decision::Teach { best: None }));
    c.append(rec(query_text, "declare `x` before use", q.clone()))
        .unwrap();
    assert_eq!(c.len(), 1);
    assert_eq!(c.get(0).error_text, query_text.as_bytes().to_vec());
    assert_eq!(c.get(0).fix_text, b"declare `x` before use".to_vec());
    assert!(!c.get(0).embedding.is_empty());
    // Persist and reload: the taught record survives.
    let back = parse(&to_bytes(&c)).unwrap();
    assert_eq!(back.len(), 1);
    assert_eq!(back.get(0).error_text, query_text.as_bytes().to_vec());
}

#[test]
fn affirmative_answers_are_trimmed_and_case_folded() {
    assert!(is_affirmative(&b"yes".to_vec()));
    assert!(is_affirmative(&b"  YES \n".to_vec()));
    assert!(is_affirmative(&b"Yes\r\n".to_vec()));
    assert!(!is_affirmative(&b"no".to_vec()));
    assert!(!is_affirmative(&b"yess".to_vec()));
    assert!(!is_affirmative(&b"".to_vec()));
}

#[test]
fn quit_answers_are_trimmed_and_case_folded() {
    assert!(is_quit(&b"quit".to_vec()));
    assert!(is_quit(&b"QUIT\n".to_vec()));
    assert!(is_quit(&b" Quit ".to_vec()));
    assert!(!is_quit(&b"q".to_vec()));
    assert!(!is_quit(&b"quit now".to_vec()));
}

#[test]
fn trimming_strips_both_ends_only() {
    assert_eq!(trim_bytes(&b"  a b \t\n".to_vec()), b"a b".to_vec());
    assert_eq!(trim_bytes(&b"".to_vec()), Vec::<u8>::new());
    assert_eq!(trim_bytes(&b" \t\r\n".to_vec()), Vec::<u8>::new());
    assert_eq!(trim_bytes(&b"xy".to_vec()), b"xy".to_vec());
}
