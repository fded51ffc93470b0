use fixmatch::similarity::{closer_to_query, dot_product, meets_threshold};

#[test]
fn dot_product_exact_value() {
    let a = vec![1, 2, 3];
    let b = vec![4, 5, 6];
    assert_eq!(dot_product(&a, &b), 32);
}

#[test]
fn dot_product_with_negatives() {
    let a = vec![-3, 7];
    let b = vec![2, -1];
    assert_eq!(dot_product(&a, &b), -13);
}

#[test]
fn self_similarity_is_one() {
    // cos(a, a) == 1 for a non-zero vector: at least 1/1, not at least 101/100.
    let a = vec![3, 4];
    assert!(meets_threshold(&a, &a, 1, 1));
    assert!(!meets_threshold(&a, &a, 101, 100));
}

#[test]
fn zero_vector_similarity_is_zero() {
    // cos with a zero vector is 0: at least 0, not at least any positive fraction.
    let z = vec![0, 0];
    let b = vec![5, 12];
    assert!(meets_threshold(&z, &b, 0, 1));
    assert!(!meets_threshold(&z, &b, 1, 100));
    assert!(meets_threshold(&b, &z, 0, 1));
    assert!(!meets_threshold(&b, &z, 1, 100));
}

#[test]
fn similarity_is_symmetric() {
    let a = vec![3, 4];
    let b = vec![4, 3];
    for (num, den) in [(0, 1), (1, 2), (24, 25), (96, 100), (99, 100), (-1, 2)] {
        assert_eq!(
            meets_threshold(&a, &b, num, den),
            meets_threshold(&b, &a, num, den)
        );
    }
    let c = vec![-3, -4];
    for (num, den) in [(-1, 1), (-99, 100), (0, 1), (1, 2)] {
        assert_eq!(
            meets_threshold(&a, &c, num, den),
            meets_threshold(&c, &a, num, den)
        );
    }
}

#[test]
fn threshold_boundary_is_exact() {
    // cos((5,0), (4,3)) == 20 / (5 * 5) == 4/5 exactly.
    let a = vec![5, 0];
    let b = vec![4, 3];
    assert!(meets_threshold(&a, &b, 4, 5));
    assert!(meets_threshold(&a, &b, 79, 100));
    assert!(!meets_threshold(&a, &b, 81, 100));
}

#[test]
fn closer_to_query_orders_by_cosine() {
    let q = vec![10, 0];
    let near = vec![9, 1];
    let far = vec![1, 9];
    assert!(closer_to_query(&near, &far, &q));
    assert!(!closer_to_query(&far, &near, &q));
    // Nothing is strictly closer than itself.
    assert!(!closer_to_query(&near, &near, &q));
}

#[test]
fn closer_to_query_with_negative_similarity() {
    let q = vec![10, 0];
    let opposite = vec![-10, 0];
    let orthogonal = vec![0, 10];
    // 0 beats -1.
    assert!(closer_to_query(&orthogonal, &opposite, &q));
    assert!(!closer_to_query(&opposite, &orthogonal, &q));
}
