//! The learning flow: turning a match verdict into an action.
//!
//! Given the best match (if any) and a confidence threshold, the flow
//! either suggests the stored fix or asks the operator to teach a new
//! one.  The threshold comparison is inclusive: a similarity exactly
//! equal to the threshold counts as confident.  The threshold is the
//! rational `CONFIDENCE_NUM / CONFIDENCE_DEN`, and the comparison is
//! decided exactly in integers.
//!
//! The small text helpers decide the operator's answers ("yes" to add a
//! suggestion, "quit" to leave), ASCII-case-insensitively on trimmed
//! input, as verified functions.

use vstd::prelude::*;

use crate::similarity::{comps_bounded, meets_threshold, sim_ge_frac, MAX_DIM};
use crate::store::RecordCollection;

verus! {

/// Numerator of the confidence threshold `4/5`.
pub const CONFIDENCE_NUM: i64 = 4;

/// Denominator of the confidence threshold `4/5`.
pub const CONFIDENCE_DEN: i64 = 5;

/// What to do with a query's match verdict.
#[derive(Debug)]
pub enum Decision {
    /// The record at `index` is a confident match: emit its fix.
    Suggest { index: usize },
    /// No confident match: ask the operator to teach a new record,
    /// reporting the best-scoring index if there was any match at all.
    Teach { best: Option<usize> },
}

/// Decides between suggesting and teaching: suggest exactly when there
/// is a best match whose similarity with the query reaches `num/den`.
pub fn decide(c: &RecordCollection, q: &Vec<i32>, best: Option<usize>, num: i64, den: i64) -> (r:
    Decision)
    requires
        c.wf(),
        q@.len() <= MAX_DIM,
        comps_bounded(q@),
        -100000 <= num <= 100000,
        0 < den <= 100000,
        best is Some ==> best.unwrap() < c@.len() && c@[best.unwrap() as int].embedding.len()
            == q@.len(),
    ensures
        best is None ==> r == (Decision::Teach { best: None }),
        best is Some && sim_ge_frac(
            c@[best.unwrap() as int].embedding,
            q@,
            num as int,
            den as int,
        ) ==> r == (Decision::Suggest { index: best.unwrap() }),
        best is Some && !sim_ge_frac(
            c@[best.unwrap() as int].embedding,
            q@,
            num as int,
            den as int,
        ) ==> r == (Decision::Teach { best }),
{
    match best {
        None => Decision::Teach { best: None },
        Some(i) => {
            let rec = c.get(i);
            if meets_threshold(&rec.embedding, q, num, den) {
                Decision::Suggest { index: i }
            } else {
                Decision::Teach { best: Some(i) }
            }
        },
    }
}

/// ASCII whitespace, as the interactive shell strips it.
pub open spec fn is_ws(b: u8) -> bool {
    b == 32 || b == 9 || b == 10 || b == 13
}

/// `s` with leading whitespace removed.
pub open spec fn trim_start(s: Seq<u8>) -> Seq<u8>
    decreases s.len(),
{
    if s.len() > 0 && is_ws(s[0]) {
        trim_start(s.drop_first())
    } else {
        s
    }
}

/// `s` with trailing whitespace removed.
pub open spec fn trim_end(s: Seq<u8>) -> Seq<u8>
    decreases s.len(),
{
    if s.len() > 0 && is_ws(s.last()) {
        trim_end(s.drop_last())
    } else {
        s
    }
}

/// `s` with whitespace removed from both ends.
pub open spec fn trimmed(s: Seq<u8>) -> Seq<u8> {
    trim_end(trim_start(s))
}

/// A byte lowered to its ASCII lowercase.
pub open spec fn ascii_lower(b: u8) -> u8 {
    if 65 <= b <= 90 {
        (b + 32) as u8
    } else {
        b
    }
}

/// A byte string lowered bytewise to ASCII lowercase.
pub open spec fn lower(s: Seq<u8>) -> Seq<u8> {
    s.map_values(|b: u8| ascii_lower(b))
}

/// Removes ASCII whitespace from both ends of a byte string.
pub fn trim_bytes(v: &Vec<u8>) -> (r: Vec<u8>)
    ensures
        r@ == trimmed(v@),
{
    let n = v.len();
    let mut lo: usize = 0;
    proof {
        assert(v@.skip(0) =~= v@);
    }
    while lo < n && (v[lo] == 32 || v[lo] == 9 || v[lo] == 10 || v[lo] == 13)
        invariant
            lo <= n,
            n == v@.len(),
            trim_start(v@) == trim_start(v@.skip(lo as int)),
        decreases n - lo,
    {
        proof {
            assert(v@.skip(lo as int)[0] == v@[lo as int]);
            assert(v@.skip(lo as int).drop_first() =~= v@.skip(lo + 1));
        }
        lo = lo + 1;
    }
    proof {
        if lo == n {
            assert(v@.skip(lo as int) =~= Seq::<u8>::empty());
        }
        assert(trim_start(v@) == v@.skip(lo as int));
    }
    let mut hi: usize = n;
    proof {
        assert(v@.subrange(lo as int, n as int) =~= v@.skip(lo as int));
    }
    while hi > lo && (v[hi - 1] == 32 || v[hi - 1] == 9 || v[hi - 1] == 10 || v[hi - 1] == 13)
        invariant
            lo <= hi <= n,
            n == v@.len(),
            trim_end(v@.skip(lo as int)) == trim_end(v@.subrange(lo as int, hi as int)),
        decreases hi,
    {
        proof {
            assert(v@.subrange(lo as int, hi as int).last() == v@[hi - 1]);
            assert(v@.subrange(lo as int, hi as int).drop_last() =~= v@.subrange(
                lo as int,
                hi - 1,
            ));
        }
        hi = hi - 1;
    }
    proof {
        if hi == lo {
            assert(v@.subrange(lo as int, hi as int) =~= Seq::<u8>::empty());
        }
        assert(trim_end(v@.subrange(lo as int, hi as int)) == v@.subrange(lo as int, hi as int));
    }
    let mut out: Vec<u8> = Vec::new();
    let mut i: usize = lo;
    while i < hi
        invariant
            lo <= i <= hi <= n,
            n == v@.len(),
            out@ == v@.subrange(lo as int, i as int),
        decreases hi - i,
    {
        out.push(v[i]);
        proof {
            assert(out@ =~= v@.subrange(lo as int, i + 1));
        }
        i = i + 1;
    }
    out
}

/// Lowers one byte to ASCII lowercase.
fn lower_byte(b: u8) -> (r: u8)
    ensures
        r == ascii_lower(b),
{
    if b >= 65 && b <= 90 {
        b + 32
    } else {
        b
    }
}

/// The operator's answer, trimmed and ASCII-lowered, is "yes".
pub fn is_affirmative(v: &Vec<u8>) -> (r: bool)
    ensures
        r == (lower(trimmed(v@)) == seq![121u8, 101u8, 115u8]),
{
    let t = trim_bytes(v);
    if t.len() != 3 {
        proof {
            assert(lower(t@).len() == t@.len());
        }
        return false;
    }
    let r = lower_byte(t[0]) == 121 && lower_byte(t[1]) == 101 && lower_byte(t[2]) == 115;
    proof {
        if r {
            assert(lower(t@) =~= seq![121u8, 101u8, 115u8]);
        } else {
            assert(lower(t@) != seq![121u8, 101u8, 115u8]) by {
                if lower(t@) == seq![121u8, 101u8, 115u8] {
                    assert(lower(t@)[0] == 121u8 && lower(t@)[1] == 101u8 && lower(t@)[2]
                        == 115u8);
                }
            }
        }
    }
    r
}

/// The operator's input, trimmed and ASCII-lowered, is "quit".
pub fn is_quit(v: &Vec<u8>) -> (r: bool)
    ensures
        r == (lower(trimmed(v@)) == seq![113u8, 117u8, 105u8, 116u8]),
{
    let t = trim_bytes(v);
    if t.len() != 4 {
        proof {
            assert(lower(t@).len() == t@.len());
        }
        return false;
    }
    let r = lower_byte(t[0]) == 113 && lower_byte(t[1]) == 117 && lower_byte(t[2]) == 105
        && lower_byte(t[3]) == 116;
    proof {
        if r {
            assert(lower(t@) =~= seq![113u8, 117u8, 105u8, 116u8]);
        } else {
            assert(lower(t@) != seq![113u8, 117u8, 105u8, 116u8]) by {
                if lower(t@) == seq![113u8, 117u8, 105u8, 116u8] {
                    assert(lower(t@)[0] == 113u8 && lower(t@)[1] == 117u8 && lower(t@)[2] == 105u8
                        && lower(t@)[3] == 116u8);
                }
            }
        }
    }
    r
}

} // verus!
