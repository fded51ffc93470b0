//! Exact cosine-similarity comparisons over fixed-point embedding vectors.
//!
//! The cosine similarity of two vectors is `dot(a,b) / (|a| * |b|)`, with
//! the convention that it is `0` when either norm is zero.  Square roots
//! are irrational, so instead of computing a similarity value this module
//! decides similarity comparisons exactly, by comparing cross-multiplied
//! squares of dot products with careful sign analysis.  Every comparison a
//! caller needs — "is record `a` closer to the query than record `b`?" and
//! "is the similarity of `a` and `b` at least the fraction `num/den`?" —
//! is answered exactly this way in bounded integer arithmetic.

use vstd::prelude::*;

verus! {

/// Upper bound on the number of components an embedding vector may have.
pub const MAX_DIM: usize = 4096;

/// Embedding components are fixed-point values: the integer `c` stands for
/// the real value `c / 32768`.  Components are kept within
/// `[-COMP_LIMIT, COMP_LIMIT]` so that every product formed here fits in
/// machine integers.
pub const COMP_LIMIT: i32 = 32768;

/// `COMP_LIMIT * COMP_LIMIT`: the largest magnitude of a single product of
/// two bounded components.
pub const COMP_SQ: i64 = 1073741824;

/// `MAX_DIM * COMP_LIMIT * COMP_LIMIT`: the largest magnitude a dot product
/// of two bounded vectors of dimension at most `MAX_DIM` can reach.
pub const DOT_LIMIT: i64 = 4398046511104;

/// Every component of `v` lies within the fixed-point range.
pub open spec fn comps_bounded(v: Seq<i32>) -> bool {
    forall|i: int| 0 <= i < v.len() ==> -(COMP_LIMIT as int) <= #[trigger] v[i] <= COMP_LIMIT as int
}

/// Mathematical dot product of two equal-length vectors.
pub open spec fn dot(a: Seq<i32>, b: Seq<i32>) -> int
    recommends
        a.len() == b.len(),
    decreases a.len(),
{
    if a.len() == 0 || b.len() == 0 {
        0
    } else {
        dot(a.drop_last(), b.drop_last()) + a.last() * b.last()
    }
}

/// The dot product does not depend on the order of its arguments.
pub proof fn lemma_dot_sym(a: Seq<i32>, b: Seq<i32>)
    ensures
        dot(a, b) == dot(b, a),
    decreases a.len(),
{
    if a.len() == 0 || b.len() == 0 {
    } else {
        lemma_dot_sym(a.drop_last(), b.drop_last());
    }
}

/// A vector's dot product with itself is never negative.
pub proof fn lemma_dot_self_nonneg(a: Seq<i32>)
    ensures
        dot(a, a) >= 0,
    decreases a.len(),
{
    if a.len() == 0 {
    } else {
        lemma_dot_self_nonneg(a.drop_last());
        assert(a.last() * a.last() >= 0) by (nonlinear_arith);
    }
}

/// Exact dot product of two bounded vectors.
pub fn dot_product(a: &Vec<i32>, b: &Vec<i32>) -> (r: i64)
    requires
        a@.len() == b@.len(),
        a@.len() <= MAX_DIM,
        comps_bounded(a@),
        comps_bounded(b@),
    ensures
        r == dot(a@, b@),
        -DOT_LIMIT <= r <= DOT_LIMIT,
{
    let n = a.len();
    let mut acc: i64 = 0;
    let mut i: usize = 0;
    while i < n
        invariant
            i <= n,
            n == a@.len(),
            n == b@.len(),
            n <= MAX_DIM,
            comps_bounded(a@),
            comps_bounded(b@),
            acc == dot(a@.take(i as int), b@.take(i as int)),
            -(i as int) * (COMP_SQ as int) <= acc <= (i as int) * (COMP_SQ as int),
        decreases n - i,
    {
        proof {
            assert(a@.take(i + 1).drop_last() =~= a@.take(i as int));
            assert(b@.take(i + 1).drop_last() =~= b@.take(i as int));
            assert(-(COMP_SQ as int) <= a@[i as int] * b@[i as int] <= COMP_SQ as int)
                by (nonlinear_arith)
                requires
                    -(COMP_LIMIT as int) <= a@[i as int] <= COMP_LIMIT as int,
                    -(COMP_LIMIT as int) <= b@[i as int] <= COMP_LIMIT as int,
                    COMP_SQ == COMP_LIMIT as int * COMP_LIMIT as int,
            ;
        }
        let term: i64 = (a[i] as i64) * (b[i] as i64);
        acc = acc + term;
        i = i + 1;
    }
    proof {
        assert(a@.take(n as int) =~= a@);
        assert(b@.take(n as int) =~= b@);
    }
    acc
}

/// The query `q` is strictly closer in cosine similarity to `a` than to
/// `b`.  Zero-norm vectors have similarity `0` by convention; otherwise
/// `cos(a,q) > cos(b,q)` is decided by sign analysis and, when both dot
/// products share a sign, by comparing `dot(a,q)^2 * |b|^2` with
/// `dot(b,q)^2 * |a|^2`, which is the strict comparison of the cosines
/// with the (positive) norms cross-multiplied and squared.
pub open spec fn sim_gt(a: Seq<i32>, b: Seq<i32>, q: Seq<i32>) -> bool {
    let da = dot(a, q);
    let db = dot(b, q);
    let na = dot(a, a);
    let nb = dot(b, b);
    let nq = dot(q, q);
    if (na == 0 || nq == 0) && (nb == 0 || nq == 0) {
        false
    } else if na == 0 || nq == 0 {
        db < 0
    } else if nb == 0 || nq == 0 {
        da > 0
    } else if da >= 0 && db < 0 {
        true
    } else if da <= 0 && db >= 0 {
        false
    } else if da > 0 {
        da * da * nb > db * db * na
    } else {
        da * da * nb < db * db * na
    }
}

/// The cosine similarity of `a` and `b` is at least the fraction
/// `num / den` (with `den > 0`).  Zero-norm vectors have similarity `0`;
/// otherwise `cos(a,b) >= num/den` is decided by comparing
/// `den^2 * dot(a,b)^2` with `num^2 * |a|^2 * |b|^2` under sign analysis.
pub open spec fn sim_ge_frac(a: Seq<i32>, b: Seq<i32>, num: int, den: int) -> bool
    recommends
        den > 0,
{
    let s = dot(a, b);
    let na = dot(a, a);
    let nb = dot(b, b);
    if na == 0 || nb == 0 {
        num <= 0
    } else if s >= 0 {
        num <= 0 || den * den * s * s >= num * num * na * nb
    } else {
        num < 0 && den * den * s * s <= num * num * na * nb
    }
}

/// Decides `sim_gt(a, b, q)` in executable code.
pub fn closer_to_query(a: &Vec<i32>, b: &Vec<i32>, q: &Vec<i32>) -> (r: bool)
    requires
        a@.len() == q@.len(),
        b@.len() == q@.len(),
        q@.len() <= MAX_DIM,
        comps_bounded(a@),
        comps_bounded(b@),
        comps_bounded(q@),
    ensures
        r == sim_gt(a@, b@, q@),
{
    let da = dot_product(a, q);
    let db = dot_product(b, q);
    let na = dot_product(a, a);
    let nb = dot_product(b, b);
    let nq = dot_product(q, q);
    if (na == 0 || nq == 0) && (nb == 0 || nq == 0) {
        false
    } else if na == 0 || nq == 0 {
        db < 0
    } else if nb == 0 || nq == 0 {
        da > 0
    } else if da >= 0 && db < 0 {
        true
    } else if da <= 0 && db >= 0 {
        false
    } else {
        proof {
            lemma_sq_cross_bound(da as int, db as int, na as int, nb as int);
        }
        let lhs: i128 = (da as i128) * (da as i128) * (nb as i128);
        let rhs: i128 = (db as i128) * (db as i128) * (na as i128);
        if da > 0 {
            lhs > rhs
        } else {
            lhs < rhs
        }
    }
}

/// Bounds for the products formed when comparing two similarities.
proof fn lemma_sq_cross_bound(da: int, db: int, na: int, nb: int)
    requires
        -(DOT_LIMIT as int) <= da <= DOT_LIMIT as int,
        -(DOT_LIMIT as int) <= db <= DOT_LIMIT as int,
        -(DOT_LIMIT as int) <= na <= DOT_LIMIT as int,
        -(DOT_LIMIT as int) <= nb <= DOT_LIMIT as int,
    ensures
        -0x40000000000000000000000000000000 <= da * da <= 0x40000000000000000000000000000000,
        -0x40000000000000000000000000000000 <= db * db <= 0x40000000000000000000000000000000,
        -0x7fffffffffffffffffffffffffffffff <= da * da * nb
            <= 0x7fffffffffffffffffffffffffffffff,
        -0x7fffffffffffffffffffffffffffffff <= db * db * na
            <= 0x7fffffffffffffffffffffffffffffff,
{
    assert(0 <= da * da <= DOT_LIMIT as int * DOT_LIMIT as int) by (nonlinear_arith)
        requires
            -(DOT_LIMIT as int) <= da <= DOT_LIMIT as int,
    ;
    assert(0 <= db * db <= DOT_LIMIT as int * DOT_LIMIT as int) by (nonlinear_arith)
        requires
            -(DOT_LIMIT as int) <= db <= DOT_LIMIT as int,
    ;
    assert(da * da * nb <= 0x7fffffffffffffffffffffffffffffff && -0x7fffffffffffffffffffffffffffffff
        <= da * da * nb) by (nonlinear_arith)
        requires
            0 <= da * da <= DOT_LIMIT as int * DOT_LIMIT as int,
            -(DOT_LIMIT as int) <= nb <= DOT_LIMIT as int,
    ;
    assert(db * db * na <= 0x7fffffffffffffffffffffffffffffff && -0x7fffffffffffffffffffffffffffffff
        <= db * db * na) by (nonlinear_arith)
        requires
            0 <= db * db <= DOT_LIMIT as int * DOT_LIMIT as int,
            -(DOT_LIMIT as int) <= na <= DOT_LIMIT as int,
    ;
}

/// Bounds for the products formed when testing a similarity against a
/// rational threshold.
proof fn lemma_frac_bound(s: int, na: int, nb: int, num: int, den: int)
    requires
        -(DOT_LIMIT as int) <= s <= DOT_LIMIT as int,
        -(DOT_LIMIT as int) <= na <= DOT_LIMIT as int,
        -(DOT_LIMIT as int) <= nb <= DOT_LIMIT as int,
        -100000 <= num <= 100000,
        0 < den <= 100000,
    ensures
        0 < den * den <= 10000000000,
        0 <= num * num <= 10000000000,
        -0x7fffffffffffffffffffffffffffffff <= den * den * s
            <= 0x7fffffffffffffffffffffffffffffff,
        -0x7fffffffffffffffffffffffffffffff <= den * den * s * s
            <= 0x7fffffffffffffffffffffffffffffff,
        -0x7fffffffffffffffffffffffffffffff <= num * num
            <= 0x7fffffffffffffffffffffffffffffff,
        -0x7fffffffffffffffffffffffffffffff <= num * num * na
            <= 0x7fffffffffffffffffffffffffffffff,
        -0x7fffffffffffffffffffffffffffffff <= num * num * na * nb
            <= 0x7fffffffffffffffffffffffffffffff,
{
    assert(0 < den * den <= 10000000000 && -10000000000 * (DOT_LIMIT as int) <= den * den * s <= 10000000000 * (DOT_LIMIT as int)) by (nonlinear_arith)
        requires
            0 < den <= 100000,
            -(DOT_LIMIT as int) <= s <= DOT_LIMIT as int,
    ;
    assert(-10000000000 * (DOT_LIMIT as int) * (DOT_LIMIT as int) <= den * den * s * s <= 10000000000 * (DOT_LIMIT as int) * (DOT_LIMIT as int)) by (nonlinear_arith)
        requires
            -10000000000 * (DOT_LIMIT as int) <= den * den * s <= 10000000000 * (DOT_LIMIT as int),
            -(DOT_LIMIT as int) <= s <= DOT_LIMIT as int,
    ;
    assert(0 <= num * num <= 10000000000 && -10000000000 * (DOT_LIMIT as int) <= num * num * na <= 10000000000 * (DOT_LIMIT as int)) by (nonlinear_arith)
        requires
            -100000 <= num <= 100000,
            -(DOT_LIMIT as int) <= na <= DOT_LIMIT as int,
    ;
    assert(-10000000000 * (DOT_LIMIT as int) * (DOT_LIMIT as int) <= num * num * na * nb <= 10000000000 * (DOT_LIMIT as int) * (DOT_LIMIT as int)) by (nonlinear_arith)
        requires
            -10000000000 * (DOT_LIMIT as int) <= num * num * na <= 10000000000 * (DOT_LIMIT as int),
            -(DOT_LIMIT as int) <= nb <= DOT_LIMIT as int,
    ;
}

/// Decides `sim_ge_frac(a, b, num, den)` in executable code.
pub fn meets_threshold(a: &Vec<i32>, b: &Vec<i32>, num: i64, den: i64) -> (r: bool)
    requires
        a@.len() == b@.len(),
        a@.len() <= MAX_DIM,
        comps_bounded(a@),
        comps_bounded(b@),
        -100000 <= num <= 100000,
        0 < den <= 100000,
    ensures
        r == sim_ge_frac(a@, b@, num as int, den as int),
{
    let s = dot_product(a, b);
    let na = dot_product(a, a);
    let nb = dot_product(b, b);
    if na == 0 || nb == 0 {
        num <= 0
    } else {
        proof {
            lemma_frac_bound(s as int, na as int, nb as int, num as int, den as int);
        }
        let lhs: i128 = (den as i128) * (den as i128) * (s as i128) * (s as i128);
        let rhs: i128 = (num as i128) * (num as i128) * (na as i128) * (nb as i128);
        if s >= 0 {
            num <= 0 || lhs >= rhs
        } else {
            num < 0 && lhs <= rhs
        }
    }
}

/// A non-zero vector has similarity exactly `1` with itself: the
/// similarity is at least `1`, and it is not at least any fraction
/// strictly greater than `1`.  (A zero vector instead has self-similarity
/// `0` by the zero-norm convention.)
pub proof fn lemma_self_similarity(a: Seq<i32>)
    requires
        dot(a, a) != 0,
    ensures
        sim_ge_frac(a, a, 1, 1),
        forall|num: int, den: int| 0 < den < num ==> !sim_ge_frac(a, a, num, den),
{
    lemma_dot_self_nonneg(a);
    let na = dot(a, a);
    assert(1 * 1 * na * na >= 1 * 1 * na * na);
    assert forall|num: int, den: int| 0 < den < num implies !sim_ge_frac(a, a, num, den) by {
        assert(den * den * na * na < num * num * na * na) by (nonlinear_arith)
            requires
                0 < den < num,
                na > 0,
        ;
    }
}

/// When either vector is the zero vector (zero norm), the similarity is
/// exactly `0`: it is at least `0`, and not at least any positive
/// fraction.
pub proof fn lemma_zero_similarity(a: Seq<i32>, b: Seq<i32>)
    requires
        dot(a, a) == 0 || dot(b, b) == 0,
    ensures
        sim_ge_frac(a, b, 0, 1),
        forall|num: int, den: int| 0 < num && 0 < den ==> !sim_ge_frac(a, b, num, den),
{
}

/// Cosine similarity is symmetric: `a` against `b` clears exactly the
/// same thresholds as `b` against `a`.
pub proof fn lemma_similarity_symmetric(a: Seq<i32>, b: Seq<i32>, num: int, den: int)
    requires
        den > 0,
    ensures
        sim_ge_frac(a, b, num, den) == sim_ge_frac(b, a, num, den),
{
    lemma_dot_sym(a, b);
    let s = dot(a, b);
    let na = dot(a, a);
    let nb = dot(b, b);
    assert(num * num * na * nb == num * num * nb * na) by (nonlinear_arith);
}

/// No vector is strictly closer to a query than itself: the strict
/// comparison `sim_gt` is irreflexive.
pub proof fn lemma_sim_gt_irrefl(a: Seq<i32>, q: Seq<i32>)
    ensures
        !sim_gt(a, a, q),
{
}

} // verus!
