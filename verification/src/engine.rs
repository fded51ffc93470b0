//! The match engine: a stateless ranking pass over a record collection
//! and a query vector.
//!
//! `find_best_match` returns the single record whose embedding has the
//! highest cosine similarity with the query; ties are broken in favour
//! of the record inserted first (the scan uses a strict comparison,
//! never at-least).  A record whose embedding length differs from the
//! query's is a data-integrity error, not something to skip silently.

use vstd::prelude::*;

use crate::similarity::{closer_to_query, comps_bounded, dot, lemma_dot_self_nonneg, sim_gt, MAX_DIM};
use crate::store::{RecordCollection, RecordModel, StoreError};

verus! {

/// The sign of the cosine similarity between `x` and `q`: `0` when
/// either vector has zero norm or the dot product is zero, else the
/// sign of the dot product.
pub open spec fn sim_class(x: Seq<i32>, q: Seq<i32>) -> int {
    if dot(x, x) == 0 || dot(q, q) == 0 || dot(x, q) == 0 {
        0
    } else if dot(x, q) > 0 {
        1
    } else {
        -1
    }
}

/// `sim_gt` restated by similarity sign: `a` beats `b` exactly when its
/// similarity sign is greater, or the signs agree and are non-zero and
/// the cross-multiplied squares compare accordingly.
pub proof fn lemma_sim_gt_characterize(a: Seq<i32>, b: Seq<i32>, q: Seq<i32>)
    ensures
        sim_gt(a, b, q) == (sim_class(a, q) > sim_class(b, q) || (sim_class(a, q) == 1
            && sim_class(b, q) == 1 && dot(a, q) * dot(a, q) * dot(b, b) > dot(b, q) * dot(b, q)
            * dot(a, a)) || (sim_class(a, q) == -1 && sim_class(b, q) == -1 && dot(a, q) * dot(
            a,
            q,
        ) * dot(b, b) < dot(b, q) * dot(b, q) * dot(a, a))),
{
    lemma_dot_self_nonneg(a);
    lemma_dot_self_nonneg(b);
    lemma_dot_self_nonneg(q);
    let da = dot(a, q);
    let db = dot(b, q);
    let na = dot(a, a);
    let nb = dot(b, b);
    let nq = dot(q, q);
    assert(da * da >= 0 && db * db >= 0) by (nonlinear_arith);
    if na > 0 && nb > 0 && nq > 0 {
        assert(da > 0 && nb > 0 ==> da * da * nb > 0) by (nonlinear_arith);
        assert(db > 0 && na > 0 ==> db * db * na > 0) by (nonlinear_arith);
        assert(da == 0 ==> da * da * nb == 0) by (nonlinear_arith);
        assert(db == 0 ==> db * db * na == 0) by (nonlinear_arith);
        assert(da * da * nb >= 0 && db * db * na >= 0) by (nonlinear_arith)
            requires
                na >= 0 && nb >= 0 && da * da >= 0 && db * db >= 0,
        ;
    }
}

/// Chaining comparisons: if `a` beats `b` and `c` does not beat `b`,
/// then `a` beats `c` and `c` does not beat `a`.  This is what lets a
/// single scan with a strict comparison find the first maximal record.
pub proof fn lemma_sim_gt_chain(a: Seq<i32>, b: Seq<i32>, c: Seq<i32>, q: Seq<i32>)
    requires
        sim_gt(a, b, q),
        !sim_gt(c, b, q),
    ensures
        sim_gt(a, c, q),
        !sim_gt(c, a, q),
{
    lemma_sim_gt_characterize(a, b, q);
    lemma_sim_gt_characterize(c, b, q);
    lemma_sim_gt_characterize(a, c, q);
    lemma_sim_gt_characterize(c, a, q);
    lemma_dot_self_nonneg(a);
    lemma_dot_self_nonneg(b);
    lemma_dot_self_nonneg(c);
    let da = dot(a, q);
    let db = dot(b, q);
    let dc = dot(c, q);
    let na = dot(a, a);
    let nb = dot(b, b);
    let nc = dot(c, c);
    let x = sim_class(a, q);
    let y = sim_class(b, q);
    let z = sim_class(c, q);
    assert(da * da >= 0 && db * db >= 0 && dc * dc >= 0) by (nonlinear_arith);
    if x > y {
        // `c` is at most `b`'s class, hence below `a`'s.
        assert(z <= y);
    } else if x == 1 && y == 1 {
        if z == 1 {
            assert(dc * dc * nb <= db * db * nc);
            assert(da * da * nc > dc * dc * na) by (nonlinear_arith)
                requires
                    da * da * nb > db * db * na,
                    dc * dc * nb <= db * db * nc,
                    na > 0,
                    nb > 0,
                    nc > 0,
                    da * da >= 0,
                    db * db >= 0,
                    dc * dc >= 0,
            ;
        } else {
            assert(z < x);
        }
    } else {
        // x == -1 && y == -1 with the squares reversed.
        assert(z == -1);
        assert(!(dc * dc * nb < db * db * nc));
        assert(da * da * nc < dc * dc * na) by (nonlinear_arith)
            requires
                da * da * nb < db * db * na,
                dc * dc * nb >= db * db * nc,
                na > 0,
                nb > 0,
                nc > 0,
                da * da >= 0,
                db * db >= 0,
                dc * dc >= 0,
        ;
    }
}

/// `k` is the index `find_best_match` must return for query `q` over
/// `s`: no record is strictly closer to the query than the one at `k`,
/// and `k`'s record is strictly closer than every earlier one — the
/// first index achieving the maximal similarity.
pub open spec fn is_best_index(s: Seq<RecordModel>, q: Seq<i32>, k: int) -> bool {
    &&& 0 <= k < s.len()
    &&& forall|j: int|
        0 <= j < s.len() ==> !sim_gt((#[trigger] s[j]).embedding, s[k].embedding, q)
    &&& forall|j: int| 0 <= j < k ==> sim_gt(s[k].embedding, (#[trigger] s[j]).embedding, q)
}

/// Records with identical embeddings tie, and the first one inserted
/// wins: the best index is never the later of two records whose
/// embeddings are equal.
pub proof fn lemma_first_of_ties(s: Seq<RecordModel>, q: Seq<i32>, k: int, i: int, j: int)
    requires
        is_best_index(s, q, k),
        0 <= i < j < s.len(),
        s[i].embedding == s[j].embedding,
    ensures
        k != j,
{
    if k == j {
        assert(sim_gt(s[j].embedding, s[i].embedding, q));
        crate::similarity::lemma_sim_gt_irrefl(s[i].embedding, q);
    }
}

/// Returns the record closest to the query by cosine similarity, with
/// ties broken in favour of the earliest record; `None` exactly when
/// the collection is empty.  A record whose embedding length differs
/// from the query's (including a missing embedding) is reported as a
/// dimension mismatch.
pub fn find_best_match(c: &RecordCollection, q: &Vec<i32>) -> (r: Result<
    Option<usize>,
    StoreError,
>)
    requires
        c.wf(),
        q@.len() <= MAX_DIM,
        comps_bounded(q@),
    ensures
        match r {
            Ok(o) => {
                &&& forall|i: int|
                    0 <= i < c@.len() ==> (#[trigger] c@[i]).embedding.len() == q@.len()
                &&& (o is Some <==> c@.len() > 0)
                &&& (o is Some ==> is_best_index(c@, q@, o->0 as int))
            },
            Err(e) => {
                &&& e == StoreError::DimensionMismatch
                &&& exists|i: int|
                    0 <= i < c@.len() && (#[trigger] c@[i]).embedding.len() != q@.len()
            },
        },
{
    let n = c.len();
    // Integrity pass: every stored embedding must have the query's length.
    let mut i: usize = 0;
    while i < n
        invariant
            i <= n,
            n == c@.len(),
            forall|j: int| 0 <= j < i ==> (#[trigger] c@[j]).embedding.len() == q@.len(),
        decreases n - i,
    {
        if c.get(i).embedding.len() != q.len() {
            return Err(StoreError::DimensionMismatch);
        }
        i = i + 1;
    }
    if n == 0 {
        return Ok(None);
    }
    // Scan with a strict comparison: the first maximal record wins.
    let mut best: usize = 0;
    let mut i2: usize = 1;
    while i2 < n
        invariant
            1 <= i2 <= n,
            best < i2,
            n == c@.len(),
            c.wf(),
            q@.len() <= MAX_DIM,
            comps_bounded(q@),
            forall|j: int| 0 <= j < n ==> (#[trigger] c@[j]).embedding.len() == q@.len(),
            forall|j: int|
                0 <= j < i2 ==> !sim_gt((#[trigger] c@[j]).embedding, c@[best as int].embedding, q@),
            forall|j: int|
                0 <= j < best ==> sim_gt(c@[best as int].embedding, (#[trigger] c@[j]).embedding, q@),
        decreases n - i2,
    {
        let cur = c.get(i2);
        let b = c.get(best);
        if closer_to_query(&cur.embedding, &b.embedding, q) {
            proof {
                assert forall|j: int| 0 <= j < i2 + 1 implies !sim_gt(
                    (#[trigger] c@[j]).embedding,
                    c@[i2 as int].embedding,
                    q@,
                ) by {
                    if j < i2 {
                        lemma_sim_gt_chain(
                            c@[i2 as int].embedding,
                            c@[best as int].embedding,
                            c@[j].embedding,
                            q@,
                        );
                    } else {
                        crate::similarity::lemma_sim_gt_irrefl(c@[i2 as int].embedding, q@);
                    }
                }
                assert forall|j: int| 0 <= j < i2 implies sim_gt(
                    c@[i2 as int].embedding,
                    (#[trigger] c@[j]).embedding,
                    q@,
                ) by {
                    lemma_sim_gt_chain(
                        c@[i2 as int].embedding,
                        c@[best as int].embedding,
                        c@[j].embedding,
                        q@,
                    );
                }
            }
            best = i2;
        }
        i2 = i2 + 1;
    }
    Ok(Some(best))
}

} // verus!
