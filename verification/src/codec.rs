//! The persistence codec: rendering a record collection to bytes and
//! parsing it back, with an exact round-trip contract.
//!
//! The durable artifact is a line-based text format.  Each record is
//! three newline-terminated lines: the error text, the fix text — both
//! with `\` written as `\\` and a newline written as `\n` so that a
//! line never contains a raw newline — and the embedding as
//! space-separated decimal components (an empty third line means "not
//! yet computed").  An empty file is the valid empty collection.
//!
//! `parse` accepts exactly the renderings of well-formed collections:
//! it returns `Ok(c)` when the input is `render(c@)`, and a
//! `StorageParse` error on any other input.

use vstd::prelude::*;

use crate::similarity::MAX_DIM;
use crate::store::{
    coll_wf, views_of, MatchRecord, RecordCollection, RecordModel, StoreError,
};

verus! {

/// A text with `\` escaped as `\\` and a newline escaped as `\n`; all
/// other bytes stand for themselves.
pub open spec fn esc(s: Seq<u8>) -> Seq<u8>
    decreases s.len(),
{
    if s.len() == 0 {
        Seq::empty()
    } else {
        let rest = esc(s.drop_first());
        if s[0] == 92 {
            seq![92u8, 92u8] + rest
        } else if s[0] == 10 {
            seq![92u8, 110u8] + rest
        } else {
            seq![s[0]] + rest
        }
    }
}

/// The decimal digits of `n`, most significant first, no leading zeros.
pub open spec fn dec_digits(n: nat) -> Seq<u8>
    decreases n,
{
    if n < 10 {
        seq![(48 + n) as u8]
    } else {
        dec_digits(n / 10) + seq![(48 + n % 10) as u8]
    }
}

/// The decimal rendering of a (signed) component value.
pub open spec fn render_i32(v: int) -> Seq<u8> {
    if v < 0 {
        seq![45u8] + dec_digits((-v) as nat)
    } else {
        dec_digits(v as nat)
    }
}

/// The embedding line: components space-separated, nothing else.
pub open spec fn render_nums(e: Seq<i32>) -> Seq<u8>
    decreases e.len(),
{
    if e.len() == 0 {
        Seq::empty()
    } else if e.len() == 1 {
        render_i32(e[0] as int)
    } else {
        render_i32(e[0] as int) + seq![32u8] + render_nums(e.drop_first())
    }
}

/// One record: three newline-terminated lines.
pub open spec fn render_rec(r: RecordModel) -> Seq<u8> {
    esc(r.error) + seq![10u8] + esc(r.fix) + seq![10u8] + render_nums(r.embedding) + seq![10u8]
}

/// The whole collection, record renderings concatenated in order.
pub open spec fn render(s: Seq<RecordModel>) -> Seq<u8>
    decreases s.len(),
{
    if s.len() == 0 {
        Seq::empty()
    } else {
        render_rec(s[0]) + render(s.drop_first())
    }
}

/// The integer value of a digit string.
pub open spec fn digits_val(s: Seq<u8>) -> int
    decreases s.len(),
{
    if s.len() == 0 {
        0
    } else {
        digits_val(s.drop_last()) * 10 + (s.last() - 48)
    }
}

/// Every byte of `s` is a decimal digit.
pub open spec fn all_digits(s: Seq<u8>) -> bool {
    forall|i: int| 0 <= i < s.len() ==> 48 <= #[trigger] s[i] <= 57
}

/// Escaping distributes over concatenation.
pub proof fn lemma_esc_concat(a: Seq<u8>, b: Seq<u8>)
    ensures
        esc(a + b) == esc(a) + esc(b),
    decreases a.len(),
{
    if a.len() == 0 {
        assert(a + b =~= b);
        assert(esc(a) + esc(b) =~= esc(b));
    } else {
        lemma_esc_concat(a.drop_first(), b);
        assert((a + b).drop_first() =~= a.drop_first() + b);
        assert((a + b)[0] == a[0]);
        if a[0] == 92 {
            assert(esc(a + b) =~= esc(a) + esc(b));
        } else if a[0] == 10 {
            assert(esc(a + b) =~= esc(a) + esc(b));
        } else {
            assert(esc(a + b) =~= esc(a) + esc(b));
        }
    }
}

/// An escaped text never contains a raw newline.
pub proof fn lemma_esc_no_nl(s: Seq<u8>)
    ensures
        forall|i: int| 0 <= i < esc(s).len() ==> #[trigger] esc(s)[i] != 10,
    decreases s.len(),
{
    if s.len() == 0 {
    } else {
        lemma_esc_no_nl(s.drop_first());
        let rest = esc(s.drop_first());
        assert forall|i: int| 0 <= i < esc(s).len() implies #[trigger] esc(s)[i] != 10 by {
            if s[0] == 92 {
                assert(esc(s) == seq![92u8, 92u8] + rest);
            } else if s[0] == 10 {
                assert(esc(s) == seq![92u8, 110u8] + rest);
            } else {
                assert(esc(s) == seq![s[0]] + rest);
            }
        }
    }
}

/// The digits of a number are digits, and there is at least one.
pub proof fn lemma_dec_digits_shape(n: nat)
    ensures
        dec_digits(n).len() >= 1,
        all_digits(dec_digits(n)),
    decreases n,
{
    if n < 10 {
    } else {
        lemma_dec_digits_shape(n / 10);
    }
}

/// Reading the digits of `n` back gives `n`.
pub proof fn lemma_digits_val_dec(n: nat)
    ensures
        digits_val(dec_digits(n)) == n,
    decreases n,
{
    if n < 10 {
        assert(dec_digits(n).drop_last() =~= Seq::<u8>::empty());
        assert((48 + n) as u8 == 48 + n);
        assert(digits_val(Seq::<u8>::empty()) == 0);
    } else {
        lemma_digits_val_dec(n / 10);
        assert(dec_digits(n).drop_last() =~= dec_digits(n / 10));
        assert(dec_digits(n).last() == (48 + n % 10) as u8);
        assert((48 + n % 10) as u8 == 48 + n % 10);
    }
}

/// The value of a digit string is non-negative, and no prefix exceeds
/// the whole.
pub proof fn lemma_digits_val_prefix(s: Seq<u8>, i: int)
    requires
        all_digits(s),
        0 <= i <= s.len(),
    ensures
        0 <= digits_val(s.take(i)) <= digits_val(s),
    decreases s.len(),
{
    if s.len() == 0 {
        assert(s.take(i) =~= s);
    } else if i == s.len() {
        assert(s.take(i) =~= s);
        lemma_digits_val_prefix(s.drop_last(), s.len() - 1);
        assert(s.drop_last().take(s.len() - 1) =~= s.drop_last());
    } else {
        assert(all_digits(s.drop_last())) by {
            assert(forall|j: int| 0 <= j < s.len() - 1 ==> s.drop_last()[j] == s[j]);
        }
        lemma_digits_val_prefix(s.drop_last(), i);
        assert(s.take(i) =~= s.drop_last().take(i));
        assert(digits_val(s.drop_last()) * 10 + (s.last() - 48) >= digits_val(s.drop_last()));
    }
}

/// The shape of a rendered component: non-empty; a leading `-` exactly
/// for negative values; digits everywhere else; never a space, newline
/// or a second `-`.
pub proof fn lemma_render_i32_shape(v: int)
    ensures
        render_i32(v).len() >= 1,
        v < 0 ==> render_i32(v)[0] == 45,
        v >= 0 ==> 48 <= render_i32(v)[0] <= 57,
        forall|i: int| 1 <= i < render_i32(v).len() ==> 48 <= #[trigger] render_i32(v)[i] <= 57,
        render_i32(v).last() != 32 && render_i32(v).last() != 10,
        forall|i: int|
            0 <= i < render_i32(v).len() ==> #[trigger] render_i32(v)[i] != 32 && render_i32(
                v,
            )[i] != 10,
{
    if v < 0 {
        lemma_dec_digits_shape((-v) as nat);
        assert(forall|i: int|
            1 <= i < render_i32(v).len() ==> render_i32(v)[i] == dec_digits((-v) as nat)[i - 1]);
        assert(render_i32(v).last() == dec_digits((-v) as nat).last());
    } else {
        lemma_dec_digits_shape(v as nat);
    }
}

/// The shape of a rendered embedding line: empty exactly for the empty
/// vector, no newline anywhere, and it never ends in a space.
pub proof fn lemma_render_nums_shape(e: Seq<i32>)
    ensures
        render_nums(e).len() == 0 <==> e.len() == 0,
        forall|i: int| 0 <= i < render_nums(e).len() ==> #[trigger] render_nums(e)[i] != 10,
        e.len() > 0 ==> 48 <= render_nums(e).last() <= 57,
    decreases e.len(),
{
    if e.len() == 0 {
    } else if e.len() == 1 {
        lemma_render_i32_shape(e[0] as int);
    } else {
        lemma_render_i32_shape(e[0] as int);
        lemma_render_nums_shape(e.drop_first());
        let hd = render_i32(e[0] as int) + seq![32u8];
        let tl = render_nums(e.drop_first());
        assert(render_nums(e) == hd + tl);
        assert(e.drop_first().len() > 0);
        assert(render_nums(e).last() == tl.last());
        assert(forall|i: int|
            0 <= i < render_nums(e).len() ==> render_nums(e)[i] == (if i < hd.len() {
                hd[i]
            } else {
                tl[i - hd.len()]
            }));
    }
}

/// Splitting a rendered embedding line at a component boundary.
pub proof fn lemma_render_nums_split(e: Seq<i32>, k: int)
    requires
        0 < k < e.len(),
    ensures
        render_nums(e) == render_nums(e.take(k)) + seq![32u8] + render_nums(e.skip(k)),
    decreases k,
{
    if k == 1 {
        assert(e.take(1).len() == 1);
        assert(e.take(1)[0] == e[0]);
        assert(render_nums(e.take(1)) == render_i32(e[0] as int));
        assert(e.skip(1) =~= e.drop_first());
        assert(render_nums(e) =~= render_nums(e.take(1)) + seq![32u8] + render_nums(e.skip(1)));
    } else {
        lemma_render_nums_split(e.drop_first(), k - 1);
        assert(e.drop_first().take(k - 1) =~= e.take(k).drop_first());
        assert(e.drop_first().skip(k - 1) =~= e.skip(k));
        assert(e.take(k).len() > 1);
        assert(e.take(k)[0] == e[0]);
        assert(render_nums(e.take(k)) == render_i32(e[0] as int) + seq![32u8] + render_nums(
            e.take(k).drop_first(),
        ));
        assert(render_nums(e) =~= render_nums(e.take(k)) + seq![32u8] + render_nums(e.skip(k)));
    }
}

/// A record's rendering is never empty.
pub proof fn lemma_render_rec_nonempty(r: RecordModel)
    ensures
        render_rec(r).len() >= 3,
{
}

/// Rendering distributes over concatenation of collections.
pub proof fn lemma_render_concat(a: Seq<RecordModel>, b: Seq<RecordModel>)
    ensures
        render(a + b) == render(a) + render(b),
    decreases a.len(),
{
    if a.len() == 0 {
        assert(a + b =~= b);
        assert(render(a) + render(b) =~= render(b));
    } else {
        lemma_render_concat(a.drop_first(), b);
        assert((a + b).drop_first() =~= a.drop_first() + b);
        assert((a + b)[0] == a[0]);
        assert(render(a + b) =~= render(a) + render(b));
    }
}

/// Appends `esc(v@)` to `out`.
fn push_esc(out: &mut Vec<u8>, v: &Vec<u8>)
    ensures
        final(out)@ == old(out)@ + esc(v@),
{
    let ghost orig = out@;
    let n = v.len();
    let mut i: usize = 0;
    proof {
        assert(v@.take(0) =~= Seq::<u8>::empty());
        assert(orig + esc(v@.take(0)) =~= orig);
    }
    while i < n
        invariant
            i <= n,
            n == v@.len(),
            out@ == orig + esc(v@.take(i as int)),
        decreases n - i,
    {
        let b = v[i];
        proof {
            lemma_esc_concat(v@.take(i as int), seq![v@[i as int]]);
            assert(v@.take(i + 1) =~= v@.take(i as int) + seq![v@[i as int]]);
            assert(seq![v@[i as int]].drop_first() =~= Seq::<u8>::empty());
            assert(esc(Seq::<u8>::empty()) == Seq::<u8>::empty());
            if b == 92 {
                assert(esc(seq![v@[i as int]]) =~= seq![92u8, 92u8]);
            } else if b == 10 {
                assert(esc(seq![v@[i as int]]) =~= seq![92u8, 110u8]);
            } else {
                assert(esc(seq![v@[i as int]]) =~= seq![v@[i as int]]);
            }
        }
        if b == 92 {
            out.push(92);
            out.push(92);
            proof {
                assert(out@ =~= orig + esc(v@.take(i + 1)));
            }
        } else if b == 10 {
            out.push(92);
            out.push(110);
            proof {
                assert(out@ =~= orig + esc(v@.take(i + 1)));
            }
        } else {
            out.push(b);
            proof {
                assert(out@ =~= orig + esc(v@.take(i + 1)));
            }
        }
        i = i + 1;
    }
    proof {
        assert(v@.take(n as int) =~= v@);
    }
}

/// Appends the decimal digits of `n` to `out`.
fn push_dec(out: &mut Vec<u8>, n: u32)
    ensures
        final(out)@ == old(out)@ + dec_digits(n as nat),
    decreases n,
{
    if n < 10 {
        out.push(48 + n as u8);
        proof {
            assert(out@ =~= old(out)@ + dec_digits(n as nat));
        }
    } else {
        push_dec(out, n / 10);
        out.push(48 + (n % 10) as u8);
        proof {
            assert(out@ =~= old(out)@ + dec_digits(n as nat));
        }
    }
}

/// Appends the decimal rendering of `v` to `out`.
fn push_i32(out: &mut Vec<u8>, v: i32)
    ensures
        final(out)@ == old(out)@ + render_i32(v as int),
{
    if v < 0 {
        out.push(45);
        let m: u32 = (-(v as i64)) as u32;
        proof {
            assert(m as nat == (-(v as int)) as nat);
        }
        push_dec(out, m);
        proof {
            assert(out@ =~= old(out)@ + render_i32(v as int));
        }
    } else {
        push_dec(out, v as u32);
    }
}

/// Appends the embedding line (without its newline) to `out`.
fn push_nums(out: &mut Vec<u8>, e: &Vec<i32>)
    ensures
        final(out)@ == old(out)@ + render_nums(e@),
{
    let ghost orig = out@;
    let n = e.len();
    let mut k: usize = 0;
    while k < n
        invariant
            k <= n,
            n == e@.len(),
            k == 0 ==> out@ == orig,
            k > 0 ==> out@ == orig + render_nums(e@.take(k as int)),
        decreases n - k,
    {
        if k > 0 {
            out.push(32);
        }
        push_i32(out, e[k]);
        proof {
            if k == 0 {
                assert(e@.take(1).len() == 1);
                assert(e@.take(1)[0] == e@[0]);
                assert(render_nums(e@.take(1)) == render_i32(e@[0] as int));
                assert(out@ =~= orig + render_nums(e@.take(1)));
            } else {
                lemma_render_nums_split(e@.take(k + 1), k as int);
                assert(e@.take(k + 1).take(k as int) =~= e@.take(k as int));
                assert(e@.take(k + 1).skip(k as int) =~= seq![e@[k as int]]);
                assert(render_nums(seq![e@[k as int]]) == render_i32(e@[k as int] as int));
                assert(out@ =~= orig + render_nums(e@.take(k + 1)));
            }
        }
        k = k + 1;
    }
    proof {
        if n == 0 {
            assert(e@.take(0) =~= e@);
            assert(orig + render_nums(e@) =~= orig);
        } else {
            assert(e@.take(n as int) =~= e@);
        }
    }
}

/// Appends one record's three lines to `out`.
fn push_rec(out: &mut Vec<u8>, rec: &MatchRecord)
    ensures
        final(out)@ == old(out)@ + render_rec(rec@),
{
    push_esc(out, &rec.error_text);
    out.push(10);
    push_esc(out, &rec.fix_text);
    out.push(10);
    push_nums(out, &rec.embedding);
    out.push(10);
    proof {
        assert(out@ =~= old(out)@ + render_rec(rec@));
    }
}

/// Serializes the whole collection: the bytes to write durably.
pub fn to_bytes(c: &RecordCollection) -> (r: Vec<u8>)
    ensures
        r@ == render(c@),
{
    let n = c.len();
    let mut out: Vec<u8> = Vec::new();
    let mut i: usize = 0;
    proof {
        assert(c@.take(0) =~= Seq::<RecordModel>::empty());
        assert(out@ =~= render(c@.take(0)));
    }
    while i < n
        invariant
            i <= n,
            n == c@.len(),
            out@ == render(c@.take(i as int)),
        decreases n - i,
    {
        let rec = c.get(i);
        push_rec(&mut out, rec);
        proof {
            lemma_render_concat(c@.take(i as int), seq![c@[i as int]]);
            assert(c@.take(i + 1) =~= c@.take(i as int) + seq![c@[i as int]]);
            assert(seq![c@[i as int]].drop_first() =~= Seq::<RecordModel>::empty());
            assert(render(Seq::<RecordModel>::empty()) == Seq::<u8>::empty());
            assert(render(seq![c@[i as int]]) =~= render_rec(c@[i as int]));
            assert(out@ =~= render(c@.take(i + 1)));
        }
        i = i + 1;
    }
    proof {
        assert(c@.take(n as int) =~= c@);
    }
    out
}

/// Where a rendered component token sits inside a line: used to show
/// that the scanner consumes exactly the token a rendering put there.
proof fn lemma_token_shape(line: Seq<u8>, e: Seq<i32>, m: int, opos: int)
    requires
        0 <= m < e.len(),
        0 <= opos <= line.len(),
        line.skip(opos) == render_nums(e.skip(m)),
    ensures
        ({
            let v = e[m] as int;
            let a = if v < 0 {
                (-v) as nat
            } else {
                v as nat
            };
            let sgn: int = if v < 0 {
                1
            } else {
                0
            };
            let dl = dec_digits(a).len() as int;
            &&& opos + sgn + dl <= line.len()
            &&& (v < 0 ==> line[opos] == 45)
            &&& (v >= 0 ==> 48 <= line[opos] <= 57)
            &&& line.subrange(opos + sgn, opos + sgn + dl) == dec_digits(a)
            &&& (m + 1 == e.len() ==> opos + sgn + dl == line.len())
            &&& (m + 1 < e.len() ==> opos + sgn + dl < line.len() && line[opos + sgn + dl] == 32
                && line.skip(opos + sgn + dl + 1) == render_nums(e.skip(m + 1)))
        }),
{
    let e2 = e.skip(m);
    assert(e2[0] == e[m]);
    let v = e[m] as int;
    let a = if v < 0 {
        (-v) as nat
    } else {
        v as nat
    };
    let sgn: int = if v < 0 {
        1
    } else {
        0
    };
    let tok = render_i32(v);
    lemma_dec_digits_shape(a);
    lemma_render_i32_shape(v);
    assert(tok.len() == sgn + dec_digits(a).len());
    assert(forall|t: int| 0 <= t < dec_digits(a).len() ==> tok[sgn + t] == #[trigger] dec_digits(
        a,
    )[t]);
    if e2.len() == 1 {
        assert(render_nums(e2) == tok);
        assert forall|i: int| 0 <= i < tok.len() implies line[opos + i] == tok[i] by {
            assert(line.skip(opos)[i] == line[opos + i]);
        }
        assert(line.subrange(opos + sgn, opos + sgn + dec_digits(a).len()) =~= dec_digits(a)) by {
            assert forall|t: int|
                0 <= t < dec_digits(a).len() implies line.subrange(
                opos + sgn,
                opos + sgn + dec_digits(a).len(),
            )[t] == #[trigger] dec_digits(a)[t] by {
                assert(line.subrange(opos + sgn, opos + sgn + dec_digits(a).len())[t] == line[opos
                    + sgn + t]);
                assert(line[opos + (sgn + t)] == tok[sgn + t]);
                assert(tok[sgn + t] == dec_digits(a)[t]);
            }
        }
    } else {
        let rest = render_nums(e2.drop_first());
        let r0 = render_nums(e2);
        assert(r0 == tok + seq![32u8] + rest);
        assert(e2.drop_first() =~= e.skip(m + 1));
        assert forall|i: int| 0 <= i < r0.len() implies line[opos + i] == r0[i] by {
            assert(line.skip(opos)[i] == line[opos + i]);
        }
        assert forall|i: int| 0 <= i < tok.len() implies r0[i] == tok[i] by {
            assert(r0[i] == (tok + seq![32u8])[i]);
        }
        assert(r0[tok.len() as int] == (tok + seq![32u8])[tok.len() as int]);
        assert(r0[tok.len() as int] == 32);
        assert(r0.skip(tok.len() as int + 1) =~= rest);
        assert(line.skip(opos).skip(tok.len() as int + 1) =~= line.skip(opos + tok.len() + 1));
        assert(line.skip(opos).skip(tok.len() as int + 1) == r0.skip(tok.len() as int + 1));
        assert(line.skip(opos + tok.len() + 1) == render_nums(e.skip(m + 1)));
        assert(line.subrange(opos + sgn, opos + sgn + dec_digits(a).len()) =~= dec_digits(a)) by {
            assert forall|t: int|
                0 <= t < dec_digits(a).len() implies line.subrange(
                opos + sgn,
                opos + sgn + dec_digits(a).len(),
            )[t] == #[trigger] dec_digits(a)[t] by {
                assert(line.subrange(opos + sgn, opos + sgn + dec_digits(a).len())[t] == line[opos
                    + sgn + t]);
                assert(line[opos + (sgn + t)] == r0[sgn + t]);
                assert(r0[sgn + t] == tok[sgn + t]);
                assert(tok[sgn + t] == dec_digits(a)[t]);
            }
        }
    }
}

/// Finds the first newline at or after `from`.
fn find_nl(v: &Vec<u8>, from: usize) -> (r: Option<usize>)
    requires
        from <= v@.len(),
    ensures
        (match r {
            Some(j) => from <= j < v@.len() && v@[j as int] == 10 && forall|t: int|
                from <= t < j ==> v@[t] != 10,
            None => forall|t: int| from <= t < v@.len() ==> v@[t] != 10,
        }),
{
    let n = v.len();
    let mut j: usize = from;
    while j < n
        invariant
            from <= j <= n,
            n == v@.len(),
            forall|t: int| from <= t < j ==> v@[t] != 10,
        decreases n - j,
    {
        if v[j] == 10 {
            return Some(j);
        }
        j = j + 1;
    }
    None
}

/// Copies `v[i..j]` out as a fresh vector.
fn subrange_vec(v: &Vec<u8>, i: usize, j: usize) -> (r: Vec<u8>)
    requires
        i <= j <= v@.len(),
    ensures
        r@ == v@.subrange(i as int, j as int),
{
    let mut out: Vec<u8> = Vec::new();
    let mut t: usize = i;
    while t < j
        invariant
            i <= t <= j <= v@.len(),
            out@ == v@.subrange(i as int, t as int),
        decreases j - t,
    {
        out.push(v[t]);
        proof {
            assert(out@ =~= v@.subrange(i as int, t + 1));
        }
        t = t + 1;
    }
    out
}

/// Byte-for-byte equality of two vectors.
fn bytes_eq(a: &Vec<u8>, b: &Vec<u8>) -> (r: bool)
    ensures
        r == (a@ == b@),
{
    if a.len() != b.len() {
        return false;
    }
    let n = a.len();
    let mut i: usize = 0;
    while i < n
        invariant
            i <= n,
            n == a@.len(),
            n == b@.len(),
            forall|t: int| 0 <= t < i ==> a@[t] == b@[t],
        decreases n - i,
    {
        if a[i] != b[i] {
            return false;
        }
        i = i + 1;
    }
    proof {
        assert(a@ =~= b@);
    }
    true
}

/// Undoes the escaping of one line.  Accepts at least every output of
/// `esc`, and on such input returns exactly the text that was escaped;
/// anything else it may accept is weeded out by the caller's re-render
/// check.
fn unesc(line: &Vec<u8>) -> (r: Option<Vec<u8>>)
    ensures
        forall|e: Seq<u8>| line@ == #[trigger] esc(e) ==> (r matches Some(v) && v@ == e),
{
    let n = line.len();
    let mut out: Vec<u8> = Vec::new();
    let mut pos: usize = 0;
    proof {
        assert forall|e: Seq<u8>| line@ == #[trigger] esc(e) implies out@.len() <= e.len() && out@
            == e.take(out@.len() as int) && line@.skip(pos as int) == esc(
            e.skip(out@.len() as int),
        ) by {
            assert(out@ =~= e.take(0));
            assert(line@.skip(0) =~= line@);
            assert(e.skip(0) =~= e);
        }
    }
    while pos < n
        invariant
            pos <= n,
            n == line@.len(),
            forall|e: Seq<u8>| line@ == #[trigger] esc(e) ==> out@.len() <= e.len() && out@
                == e.take(out@.len() as int) && line@.skip(pos as int) == esc(
                e.skip(out@.len() as int),
            ),
        decreases n - pos,
    {
        let ghost opos = pos as int;
        let ghost oout = out@;
        let b = line[pos];
        if b == 92 {
            if pos + 1 == n {
                proof {
                    assert forall|e: Seq<u8>| line@ != #[trigger] esc(e) by {
                        if line@ == esc(e) {
                            let m = oout.len() as int;
                            let e2 = e.skip(m);
                            assert(line@.skip(opos) == esc(e2));
                            assert(esc(e2).len() == 1);
                            assert(e2.len() > 0) by {
                                if e2.len() == 0 {
                                    assert(esc(e2).len() == 0);
                                }
                            }
                            assert(esc(e2)[0] == line@[opos]);
                            if e2[0] == 92 || e2[0] == 10 {
                                assert(esc(e2).len() >= 2);
                            } else {
                                assert(esc(e2)[0] == e2[0]);
                            }
                        }
                    }
                }
                return None;
            }
            let b2 = line[pos + 1];
            if b2 == 92 || b2 == 110 {
                let decoded: u8 = if b2 == 92 {
                    92
                } else {
                    10
                };
                out.push(decoded);
                pos = pos + 2;
                proof {
                    assert forall|e: Seq<u8>| line@ == #[trigger] esc(e) implies out@.len()
                        <= e.len() && out@ == e.take(out@.len() as int) && line@.skip(pos as int)
                        == esc(e.skip(out@.len() as int)) by {
                        let m = oout.len() as int;
                        let e2 = e.skip(m);
                        assert(line@.skip(opos) == esc(e2));
                        assert(e2.len() > 0) by {
                            if e2.len() == 0 {
                                assert(esc(e2).len() == 0);
                            }
                        }
                        assert(esc(e2)[0] == line@[opos] && esc(e2)[0] == 92);
                        assert(esc(e2)[1] == line@[opos + 1]);
                        if e2[0] == 92 {
                            assert(esc(e2) == seq![92u8, 92u8] + esc(e2.drop_first()));
                        } else if e2[0] == 10 {
                            assert(esc(e2) == seq![92u8, 110u8] + esc(e2.drop_first()));
                        } else {
                            assert(esc(e2) == seq![e2[0]] + esc(e2.drop_first()));
                            assert(e2[0] == 92);
                        }
                        assert(e2[0] == decoded);
                        assert(e[m] == decoded);
                        assert(out@ =~= e.take(m + 1));
                        assert(esc(e2).skip(2) =~= esc(e2.drop_first()));
                        assert(line@.skip(opos).skip(2) =~= line@.skip(opos + 2));
                        assert(line@.skip(opos + 2) == esc(e2.drop_first()));
                        assert(e2.drop_first() =~= e.skip(m + 1));
                    }
                }
            } else {
                proof {
                    assert forall|e: Seq<u8>| line@ != #[trigger] esc(e) by {
                        if line@ == esc(e) {
                            let m = oout.len() as int;
                            let e2 = e.skip(m);
                            assert(line@.skip(opos) == esc(e2));
                            assert(e2.len() > 0) by {
                                if e2.len() == 0 {
                                    assert(esc(e2).len() == 0);
                                }
                            }
                            assert(esc(e2)[0] == line@[opos] && esc(e2)[0] == 92);
                            assert(esc(e2)[1] == line@[opos + 1]);
                            if e2[0] == 92 {
                                assert(esc(e2)[1] == 92);
                            } else if e2[0] == 10 {
                                assert(esc(e2)[1] == 110);
                            } else {
                                assert(esc(e2)[0] == e2[0]);
                            }
                        }
                    }
                }
                return None;
            }
        } else {
            out.push(b);
            pos = pos + 1;
            proof {
                assert forall|e: Seq<u8>| line@ == #[trigger] esc(e) implies out@.len() <= e.len()
                    && out@ == e.take(out@.len() as int) && line@.skip(pos as int) == esc(
                    e.skip(out@.len() as int),
                ) by {
                    let m = oout.len() as int;
                    let e2 = e.skip(m);
                    assert(line@.skip(opos) == esc(e2));
                    assert(e2.len() > 0) by {
                        if e2.len() == 0 {
                            assert(esc(e2).len() == 0);
                        }
                    }
                    assert(esc(e2)[0] == line@[opos]);
                    if e2[0] == 92 || e2[0] == 10 {
                        assert(esc(e2)[0] == 92);
                    } else {
                        assert(esc(e2) == seq![e2[0]] + esc(e2.drop_first()));
                    }
                    assert(e2[0] == b);
                    assert(e[m] == b);
                    assert(out@ =~= e.take(m + 1));
                    assert(esc(e2).skip(1) =~= esc(e2.drop_first()));
                    assert(line@.skip(opos).skip(1) =~= line@.skip(opos + 1));
                    assert(line@.skip(opos + 1) == esc(e2.drop_first()));
                    assert(e2.drop_first() =~= e.skip(m + 1));
                }
            }
        }
    }
    proof {
        assert forall|e: Seq<u8>| line@ == #[trigger] esc(e) implies out@ == e by {
            let m = out@.len() as int;
            let e2 = e.skip(m);
            assert(line@.skip(pos as int) =~= Seq::<u8>::empty());
            assert(esc(e2).len() == 0);
            assert(e2.len() == 0) by {
                if e2.len() > 0 {
                    assert(esc(e2).len() > 0);
                }
            }
            assert(out@ =~= e);
        }
    }
    Some(out)
}

/// Parses one embedding line.  Accepts at least every output of
/// `render_nums`, returning exactly the components that were rendered;
/// anything else it may accept is weeded out by the caller's re-render
/// check.
fn parse_nums(line: &Vec<u8>) -> (r: Option<Vec<i32>>)
    ensures
        forall|e: Seq<i32>|
            line@ == #[trigger] render_nums(e) ==> (r matches Some(v) && v@ == e),
{
    let n = line.len();
    let mut out: Vec<i32> = Vec::new();
    let mut pos: usize = 0;
    proof {
        assert forall|e: Seq<i32>| line@ == #[trigger] render_nums(e) implies out@.len() <= e.len()
            && out@ == e.take(out@.len() as int) && (out@.len() == e.len() ==> pos == n) && (
        out@.len() < e.len() ==> line@.skip(pos as int) == render_nums(
            e.skip(out@.len() as int),
        )) by {
            assert(out@ =~= e.take(0));
            assert(line@.skip(0) =~= line@);
            assert(e.skip(0) =~= e);
            if e.len() == 0 {
                assert(render_nums(e).len() == 0);
            }
        }
    }
    while pos < n
        invariant
            pos <= n,
            n == line@.len(),
            forall|e: Seq<i32>|
                line@ == #[trigger] render_nums(e) ==> out@.len() <= e.len() && out@ == e.take(
                    out@.len() as int,
                ) && (out@.len() == e.len() ==> pos == n) && (out@.len() < e.len()
                    ==> line@.skip(pos as int) == render_nums(e.skip(out@.len() as int))),
        decreases n - pos,
    {
        let ghost opos = pos as int;
        let ghost m = out@.len() as int;
        let ghost oout = out@;
        let neg = line[pos] == 45;
        if neg {
            pos = pos + 1;
        }
        let dstart = pos;
        let mut val: u64 = 0;
        proof {
            assert(line@.subrange(dstart as int, dstart as int) =~= Seq::<u8>::empty());
        }
        while pos < n && line[pos] >= 48 && line[pos] <= 57
            invariant
                n == line@.len(),
                0 <= opos,
                opos < n,
                dstart <= pos <= n,
                dstart as int == opos + (if neg {
                    1int
                } else {
                    0int
                }),
                neg ==> line@[opos] == 45,
                !neg ==> line@[opos] != 45,
                out@ == oout,
                m == oout.len() as int,
                all_digits(line@.subrange(dstart as int, pos as int)),
                val == digits_val(line@.subrange(dstart as int, pos as int)),
                val <= 42949672959,
                forall|e: Seq<i32>|
                    line@ == #[trigger] render_nums(e) ==> m < e.len() && oout == e.take(m)
                        && line@.skip(opos) == render_nums(e.skip(m)),
            decreases n - pos,
        {
            if val > 4294967295 {
                proof {
                    assert forall|e: Seq<i32>| line@ != #[trigger] render_nums(e) by {
                        if line@ == render_nums(e) {
                            lemma_token_shape(line@, e, m, opos);
                            let v = e[m] as int;
                            let a = if v < 0 {
                                (-v) as nat
                            } else {
                                v as nat
                            };
                            let sgn: int = if v < 0 {
                                1int
                            } else {
                                0int
                            };
                            lemma_dec_digits_shape(a);
                            lemma_digits_val_dec(a);
                            assert(neg == (v < 0)) by {
                                if v < 0 {
                                    assert(line@[opos] == 45);
                                } else {
                                    assert(48 <= line@[opos] <= 57);
                                }
                            }
                            assert(dstart as int == opos + sgn);
                            let dl = dec_digits(a).len() as int;
                            assert forall|t: int|
                                0 <= t < dl implies line@[dstart + t] == #[trigger] dec_digits(
                                a,
                            )[t] by {
                                assert(line@.subrange(opos + sgn, opos + sgn + dl)[t] == line@[
                                    opos + sgn + t]);
                                assert(line@.subrange(opos + sgn, opos + sgn + dl)[t]
                                    == dec_digits(a)[t]);
                            }
                            // The scanned digits are a prefix of the rendered ones.
                            assert(pos - dstart <= dl) by {
                                if pos - dstart > dl {
                                    assert(line@[dstart + dl] == line@.subrange(
                                        dstart as int,
                                        pos as int,
                                    )[dl]);
                                    if m + 1 == e.len() {
                                        assert(dstart + dl == n);
                                    } else {
                                        assert(line@[dstart + dl] == 32);
                                    }
                                }
                            }
                            assert(line@.subrange(dstart as int, pos as int) =~= dec_digits(
                                a,
                            ).take(pos - dstart)) by {
                                assert forall|t: int|
                                    0 <= t < pos - dstart implies line@.subrange(
                                    dstart as int,
                                    pos as int,
                                )[t] == #[trigger] dec_digits(a).take(pos - dstart)[t] by {
                                    assert(line@.subrange(dstart as int, pos as int)[t] == line@[
                                        dstart + t]);
                                    assert(line@[dstart + t] == dec_digits(a)[t]);
                                }
                            }
                            lemma_digits_val_prefix(dec_digits(a), pos - dstart);
                            assert(val <= a);
                            assert(a <= 2147483648);
                        }
                    }
                }
                return None;
            }
            let d = line[pos] - 48;
            proof {
                assert(line@.subrange(dstart as int, pos + 1).drop_last() =~= line@.subrange(
                    dstart as int,
                    pos as int,
                ));
                assert(line@.subrange(dstart as int, pos + 1).last() == line@[pos as int]);
                assert(forall|t: int|
                    0 <= t < pos + 1 - dstart ==> #[trigger] line@.subrange(
                        dstart as int,
                        pos + 1,
                    )[t] == line@[dstart + t]);
            }
            val = val * 10 + (d as u64);
            pos = pos + 1;
        }
        let ghost dpos = pos as int;
        if pos == dstart {
            proof {
                assert forall|e: Seq<i32>| line@ != #[trigger] render_nums(e) by {
                    if line@ == render_nums(e) {
                        lemma_token_shape(line@, e, m, opos);
                        let v = e[m] as int;
                        let a = if v < 0 {
                            (-v) as nat
                        } else {
                            v as nat
                        };
                        let sgn: int = if v < 0 {
                            1int
                        } else {
                            0int
                        };
                        lemma_dec_digits_shape(a);
                        assert(neg == (v < 0)) by {
                            if v < 0 {
                                assert(line@[opos] == 45);
                            } else {
                                assert(48 <= line@[opos] <= 57);
                            }
                        }
                        assert(dstart as int == opos + sgn);
                        let dl = dec_digits(a).len() as int;
                        assert(line@.subrange(opos + sgn, opos + sgn + dl)[0] == line@[opos + sgn
                            + 0]);
                        assert(line@.subrange(opos + sgn, opos + sgn + dl)[0] == dec_digits(a)[0]);
                        assert(48 <= line@[dstart as int] <= 57);
                        assert(dstart < n);
                    }
                }
            }
            return None;
        }
        let v32: i32;
        if neg {
            if val > 2147483648 {
                proof {
                    assert forall|e: Seq<i32>| line@ != #[trigger] render_nums(e) by {
                        if line@ == render_nums(e) {
                            lemma_nums_scan(line@, e, m, opos, neg, dpos, val as int);
                        }
                    }
                }
                return None;
            }
            v32 = (-(val as i64)) as i32;
        } else {
            if val > 2147483647 {
                proof {
                    assert forall|e: Seq<i32>| line@ != #[trigger] render_nums(e) by {
                        if line@ == render_nums(e) {
                            lemma_nums_scan(line@, e, m, opos, neg, dpos, val as int);
                        }
                    }
                }
                return None;
            }
            v32 = val as i32;
        }
        out.push(v32);
        if pos < n {
            if line[pos] != 32 {
                proof {
                    assert forall|e: Seq<i32>| line@ != #[trigger] render_nums(e) by {
                        if line@ == render_nums(e) {
                            lemma_nums_scan(line@, e, m, opos, neg, dpos, val as int);
                        }
                    }
                }
                return None;
            }
            pos = pos + 1;
        }
        proof {
            assert forall|e: Seq<i32>| line@ == #[trigger] render_nums(e) implies out@.len()
                <= e.len() && out@ == e.take(out@.len() as int) && (out@.len() == e.len() ==> pos
                == n) && (out@.len() < e.len() ==> line@.skip(pos as int) == render_nums(
                e.skip(out@.len() as int),
            )) by {
                lemma_nums_scan(line@, e, m, opos, neg, dpos, val as int);
                let v = e[m] as int;
                assert(v32 as int == v);
                assert(out@ =~= e.take(m + 1));
                if m + 1 == e.len() {
                    assert(dpos == n);
                } else {
                    assert(line@[dpos] == 32);
                    assert(pos == dpos + 1);
                    assert(line@.skip(pos as int) == render_nums(e.skip(m + 1)));
                }
            }
        }
    }
    proof {
        assert forall|e: Seq<i32>| line@ == #[trigger] render_nums(e) implies out@ == e by {
            let m = out@.len() as int;
            if m < e.len() {
                lemma_render_nums_shape(e.skip(m));
                assert(e.skip(m).len() > 0);
                assert(line@.skip(pos as int).len() == 0);
            }
            assert(out@ =~= e);
        }
    }
    Some(out)
}

/// What the digit scanner must have found when the line is a rendering:
/// the sign matches, the scan stopped exactly at the end of the
/// rendered digits, and the accumulated value is the component's
/// magnitude.
proof fn lemma_nums_scan(
    line: Seq<u8>,
    e: Seq<i32>,
    m: int,
    opos: int,
    neg: bool,
    dpos: int,
    val: int,
)
    requires
        line == render_nums(e),
        0 <= m < e.len(),
        0 <= opos < line.len(),
        e.take(m).len() == m,
        line.skip(opos) == render_nums(e.skip(m)),
        neg ==> line[opos] == 45,
        !neg ==> line[opos] != 45,
        ({
            let dstart = opos + (if neg {
                1int
            } else {
                0int
            });
            &&& dstart <= dpos <= line.len()
            &&& all_digits(line.subrange(dstart, dpos))
            &&& val == digits_val(line.subrange(dstart, dpos))
            &&& dpos > dstart
            &&& (dpos == line.len() || !(48 <= line[dpos] <= 57))
        }),
    ensures
        ({
            let v = e[m] as int;
            let a = if v < 0 {
                (-v) as nat
            } else {
                v as nat
            };
            &&& neg == (v < 0)
            &&& dpos == opos + (if neg {
                1int
            } else {
                0int
            }) + dec_digits(a).len()
            &&& val == a
            &&& (m + 1 == e.len() ==> dpos == line.len())
            &&& (m + 1 < e.len() ==> dpos < line.len() && line[dpos] == 32 && line.skip(dpos + 1)
                == render_nums(e.skip(m + 1)))
        }),
{
    lemma_token_shape(line, e, m, opos);
    let v = e[m] as int;
    let a = if v < 0 {
        (-v) as nat
    } else {
        v as nat
    };
    lemma_dec_digits_shape(a);
    lemma_digits_val_dec(a);
    let dstart = opos + (if neg {
        1int
    } else {
        0int
    });
    let sgn: int = if v < 0 {
        1int
    } else {
        0int
    };
    assert(neg == (v < 0)) by {
        if v < 0 {
            assert(line[opos] == 45);
        } else {
            assert(48 <= line[opos] <= 57);
        }
    }
    assert(dstart == opos + sgn);
    let dl = dec_digits(a).len() as int;
    assert forall|t: int| 0 <= t < dl implies line[dstart + t] == #[trigger] dec_digits(a)[t] by {
        assert(line.subrange(opos + sgn, opos + sgn + dl)[t] == line[opos + sgn + t]);
        assert(line.subrange(opos + sgn, opos + sgn + dl)[t] == dec_digits(a)[t]);
    }
    assert(dpos - dstart <= dl) by {
        if dpos - dstart > dl {
            assert(line[dstart + dl] == line.subrange(dstart, dpos)[dl]);
            assert(48 <= line[dstart + dl] <= 57);
            if m + 1 == e.len() {
                assert(dstart + dl == line.len());
            } else {
                assert(line[dstart + dl] == 32);
            }
        }
    }
    assert(dpos - dstart >= dl) by {
        if dpos - dstart < dl {
            assert(line[dpos] == dec_digits(a)[dpos - dstart]) by {
                assert(line[dstart + (dpos - dstart)] == dec_digits(a)[dpos - dstart]);
            }
            assert(48 <= dec_digits(a)[dpos - dstart] <= 57);
            assert(dpos < line.len());
        }
    }
    assert(line.subrange(dstart, dpos) =~= dec_digits(a)) by {
        assert forall|t: int| 0 <= t < dpos - dstart implies line.subrange(dstart, dpos)[t]
            == #[trigger] dec_digits(a)[t] by {
            assert(line.subrange(dstart, dpos)[t] == line[dstart + t]);
            assert(line[dstart + t] == dec_digits(a)[t]);
        }
    }
}

/// Where the three lines of a rendered record sit inside the input.
proof fn lemma_rec_lines(input: Seq<u8>, c: Seq<RecordModel>, k: int, pos: int)
    requires
        0 <= k < c.len(),
        0 <= pos <= input.len(),
        input.skip(pos) == render(c.skip(k)),
    ensures
        ({
            let e1 = esc(c[k].error);
            let e2 = esc(c[k].fix);
            let nu = render_nums(c[k].embedding);
            let j1 = pos + e1.len();
            let j2 = j1 + 1 + e2.len();
            let j3 = j2 + 1 + nu.len();
            &&& j3 < input.len()
            &&& input[j1 as int] == 10 && input[j2 as int] == 10 && input[j3 as int] == 10
            &&& (forall|t: int| pos <= t < j1 ==> #[trigger] input[t] != 10)
            &&& (forall|t: int| j1 + 1 <= t < j2 ==> #[trigger] input[t] != 10)
            &&& (forall|t: int| j2 + 1 <= t < j3 ==> #[trigger] input[t] != 10)
            &&& input.subrange(pos, j1 as int) == e1
            &&& input.subrange(j1 + 1, j2 as int) == e2
            &&& input.subrange(j2 + 1, j3 as int) == nu
            &&& input.skip(j3 + 1) == render(c.skip(k + 1))
        }),
{
    let r = c.skip(k)[0];
    assert(r == c[k]);
    assert(render(c.skip(k)) == render_rec(r) + render(c.skip(k).drop_first()));
    assert(c.skip(k).drop_first() =~= c.skip(k + 1));
    let e1 = esc(c[k].error);
    let e2 = esc(c[k].fix);
    let nu = render_nums(c[k].embedding);
    lemma_esc_no_nl(c[k].error);
    lemma_esc_no_nl(c[k].fix);
    lemma_render_nums_shape(c[k].embedding);
    let rr = render_rec(r);
    let rest = render(c.skip(k + 1));
    assert(rr == e1 + seq![10u8] + e2 + seq![10u8] + nu + seq![10u8]);
    let j1 = pos + e1.len();
    let j2 = j1 + 1 + e2.len();
    let j3 = j2 + 1 + nu.len();
    assert forall|t: int| pos <= t < pos + rr.len() + rest.len() implies #[trigger] input[t] == (
    rr + rest)[t - pos] by {
        assert(input.skip(pos)[t - pos] == input[pos + (t - pos)]);
    }
    assert forall|t: int| pos <= t < pos + rr.len() implies #[trigger] input[t] == rr[t - pos] by {
        assert((rr + rest)[t - pos] == rr[t - pos]);
    }
    assert forall|t: int| 0 <= t < rr.len() implies #[trigger] rr[t] == (if t < e1.len() {
        e1[t]
    } else if t == e1.len() {
        10u8
    } else if t < e1.len() + 1 + e2.len() {
        e2[t - (e1.len() + 1)]
    } else if t == e1.len() + 1 + e2.len() {
        10u8
    } else if t < e1.len() + 1 + e2.len() + 1 + nu.len() {
        nu[t - (e1.len() + 1 + e2.len() + 1)]
    } else {
        10u8
    }) by {
        let a1 = e1 + seq![10u8];
        let a2 = a1 + e2;
        let a3 = a2 + seq![10u8];
        let a4 = a3 + nu;
        assert(rr == a4 + seq![10u8]);
        assert(rr[t] == (a4 + seq![10u8])[t]);
        if t < a4.len() {
            assert(a4[t] == (a3 + nu)[t]);
            if t < a3.len() {
                assert(a3[t] == (a2 + seq![10u8])[t]);
                if t < a2.len() {
                    assert(a2[t] == (a1 + e2)[t]);
                    if t < a1.len() {
                        assert(a1[t] == (e1 + seq![10u8])[t]);
                    }
                }
            }
        }
    }
    assert(input[j1 as int] == 10);
    assert(input[j2 as int] == 10);
    assert(input[j3 as int] == 10);
    assert(input.subrange(pos, j1 as int) =~= e1) by {
        assert forall|i: int| 0 <= i < e1.len() implies input.subrange(pos, j1 as int)[i]
            == #[trigger] e1[i] by {
            assert(input.subrange(pos, j1 as int)[i] == input[pos + i]);
            assert(rr[pos + i - pos] == e1[i]);
        }
    }
    assert(input.subrange(j1 + 1, j2 as int) =~= e2) by {
        assert forall|i: int| 0 <= i < e2.len() implies input.subrange(j1 + 1, j2 as int)[i]
            == #[trigger] e2[i] by {
            assert(input.subrange(j1 + 1, j2 as int)[i] == input[j1 + 1 + i]);
            assert(rr[j1 + 1 + i - pos] == e2[i]);
        }
    }
    assert(input.subrange(j2 + 1, j3 as int) =~= nu) by {
        assert forall|i: int| 0 <= i < nu.len() implies input.subrange(j2 + 1, j3 as int)[i]
            == #[trigger] nu[i] by {
            assert(input.subrange(j2 + 1, j3 as int)[i] == input[j2 + 1 + i]);
            assert(rr[j2 + 1 + i - pos] == nu[i]);
        }
    }
    assert(input.skip(j3 + 1) =~= rest) by {
        assert(input.skip(pos).len() == rr.len() + rest.len());
        assert forall|i: int| 0 <= i < rest.len() implies input.skip(j3 + 1)[i] == #[trigger] rest[
        i] by {
            assert(input.skip(j3 + 1)[i] == input[j3 + 1 + i]);
            assert((rr + rest)[j3 + 1 + i - pos] == rest[j3 + 1 + i - pos - rr.len()]);
        }
    }
}

/// Deserializes a durable artifact.  Returns the collection whose
/// rendering the input is, and a `StorageParse` error on every other
/// input: absence of durable content is represented by empty input,
/// which parses to the empty collection.
pub fn parse(input: &Vec<u8>) -> (r: Result<RecordCollection, StoreError>)
    ensures
        r matches Ok(col) ==> coll_wf(col@) && render(col@) == input@,
        forall|c: Seq<RecordModel>|
            coll_wf(c) && input@ == #[trigger] render(c) ==> (r matches Ok(col) && col@ == c),
        r matches Err(e) ==> e == StoreError::StorageParse,
{
    let n = input.len();
    let mut recs: Vec<MatchRecord> = Vec::new();
    let mut pos: usize = 0;
    proof {
        assert forall|c: Seq<RecordModel>|
            coll_wf(c) && input@ == #[trigger] render(c) implies views_of(recs@).len() <= c.len()
            && views_of(recs@) == c.take(views_of(recs@).len() as int) && input@.skip(pos as int)
            == render(c.skip(views_of(recs@).len() as int)) by {
            assert(views_of(recs@) =~= c.take(0));
            assert(input@.skip(0) =~= input@);
            assert(c.skip(0) =~= c);
        }
    }
    while pos < n
        invariant
            pos <= n,
            n == input@.len(),
            forall|c: Seq<RecordModel>|
                coll_wf(c) && input@ == #[trigger] render(c) ==> views_of(recs@).len() <= c.len()
                    && views_of(recs@) == c.take(views_of(recs@).len() as int) && input@.skip(
                    pos as int,
                ) == render(c.skip(views_of(recs@).len() as int)),
        decreases n - pos,
    {
        let ghost opos = pos as int;
        let ghost k = views_of(recs@).len() as int;
        let ghost orecs = recs@;
        proof {
            assert forall|c: Seq<RecordModel>|
                coll_wf(c) && input@ == #[trigger] render(c) implies k < c.len() by {
                if k == c.len() {
                    assert(c.skip(k) =~= Seq::<RecordModel>::empty());
                    assert(render(c.skip(k)).len() == 0);
                    assert(input@.skip(opos).len() > 0);
                }
            }
        }
        let j1 = match find_nl(input, pos) {
            Some(j) => j,
            None => {
                proof {
                    assert forall|c: Seq<RecordModel>|
                        !(coll_wf(c) && input@ == #[trigger] render(c)) by {
                        if coll_wf(c) && input@ == render(c) {
                            lemma_rec_lines(input@, c, k, opos);
                        }
                    }
                }
                return Err(StoreError::StorageParse);
            },
        };
        let line1 = subrange_vec(input, pos, j1);
        let err = match unesc(&line1) {
            Some(v) => v,
            None => {
                proof {
                    assert forall|c: Seq<RecordModel>|
                        !(coll_wf(c) && input@ == #[trigger] render(c)) by {
                        if coll_wf(c) && input@ == render(c) {
                            lemma_rec_lines(input@, c, k, opos);
                            assert(j1 == opos + esc(c[k].error).len()) by {
                                if j1 < opos + esc(c[k].error).len() {
                                    assert(input@[j1 as int] != 10);
                                } else if j1 > opos + esc(c[k].error).len() {
                                    assert(input@[opos + esc(c[k].error).len()] == 10);
                                }
                            }
                            assert(line1@ == esc(c[k].error));
                        }
                    }
                }
                return Err(StoreError::StorageParse);
            },
        };
        let j2 = match find_nl(input, j1 + 1) {
            Some(j) => j,
            None => {
                proof {
                    assert forall|c: Seq<RecordModel>|
                        !(coll_wf(c) && input@ == #[trigger] render(c)) by {
                        if coll_wf(c) && input@ == render(c) {
                            lemma_rec_lines(input@, c, k, opos);
                            assert(j1 == opos + esc(c[k].error).len()) by {
                                if j1 < opos + esc(c[k].error).len() {
                                    assert(input@[j1 as int] != 10);
                                } else if j1 > opos + esc(c[k].error).len() {
                                    assert(input@[opos + esc(c[k].error).len()] == 10);
                                }
                            }
                        }
                    }
                }
                return Err(StoreError::StorageParse);
            },
        };
        let line2 = subrange_vec(input, j1 + 1, j2);
        let fix = match unesc(&line2) {
            Some(v) => v,
            None => {
                proof {
                    assert forall|c: Seq<RecordModel>|
                        !(coll_wf(c) && input@ == #[trigger] render(c)) by {
                        if coll_wf(c) && input@ == render(c) {
                            lemma_rec_lines(input@, c, k, opos);
                            assert(j1 == opos + esc(c[k].error).len()) by {
                                if j1 < opos + esc(c[k].error).len() {
                                    assert(input@[j1 as int] != 10);
                                } else if j1 > opos + esc(c[k].error).len() {
                                    assert(input@[opos + esc(c[k].error).len()] == 10);
                                }
                            }
                            assert(j2 == j1 + 1 + esc(c[k].fix).len()) by {
                                if j2 < j1 + 1 + esc(c[k].fix).len() {
                                    assert(input@[j2 as int] != 10);
                                } else if j2 > j1 + 1 + esc(c[k].fix).len() {
                                    assert(input@[j1 + 1 + esc(c[k].fix).len()] == 10);
                                }
                            }
                            assert(line2@ == esc(c[k].fix));
                        }
                    }
                }
                return Err(StoreError::StorageParse);
            },
        };
        let j3 = match find_nl(input, j2 + 1) {
            Some(j) => j,
            None => {
                proof {
                    assert forall|c: Seq<RecordModel>|
                        !(coll_wf(c) && input@ == #[trigger] render(c)) by {
                        if coll_wf(c) && input@ == render(c) {
                            lemma_rec_lines(input@, c, k, opos);
                            assert(j1 == opos + esc(c[k].error).len()) by {
                                if j1 < opos + esc(c[k].error).len() {
                                    assert(input@[j1 as int] != 10);
                                } else if j1 > opos + esc(c[k].error).len() {
                                    assert(input@[opos + esc(c[k].error).len()] == 10);
                                }
                            }
                            assert(j2 == j1 + 1 + esc(c[k].fix).len()) by {
                                if j2 < j1 + 1 + esc(c[k].fix).len() {
                                    assert(input@[j2 as int] != 10);
                                } else if j2 > j1 + 1 + esc(c[k].fix).len() {
                                    assert(input@[j1 + 1 + esc(c[k].fix).len()] == 10);
                                }
                            }
                        }
                    }
                }
                return Err(StoreError::StorageParse);
            },
        };
        let line3 = subrange_vec(input, j2 + 1, j3);
        let emb = match parse_nums(&line3) {
            Some(v) => v,
            None => {
                proof {
                    assert forall|c: Seq<RecordModel>|
                        !(coll_wf(c) && input@ == #[trigger] render(c)) by {
                        if coll_wf(c) && input@ == render(c) {
                            lemma_rec_lines(input@, c, k, opos);
                            assert(j1 == opos + esc(c[k].error).len()) by {
                                if j1 < opos + esc(c[k].error).len() {
                                    assert(input@[j1 as int] != 10);
                                } else if j1 > opos + esc(c[k].error).len() {
                                    assert(input@[opos + esc(c[k].error).len()] == 10);
                                }
                            }
                            assert(j2 == j1 + 1 + esc(c[k].fix).len()) by {
                                if j2 < j1 + 1 + esc(c[k].fix).len() {
                                    assert(input@[j2 as int] != 10);
                                } else if j2 > j1 + 1 + esc(c[k].fix).len() {
                                    assert(input@[j1 + 1 + esc(c[k].fix).len()] == 10);
                                }
                            }
                            assert(j3 == j2 + 1 + render_nums(c[k].embedding).len()) by {
                                if j3 < j2 + 1 + render_nums(c[k].embedding).len() {
                                    assert(input@[j3 as int] != 10);
                                } else if j3 > j2 + 1 + render_nums(c[k].embedding).len() {
                                    assert(input@[j2 + 1 + render_nums(c[k].embedding).len()]
                                        == 10);
                                }
                            }
                            assert(line3@ == render_nums(c[k].embedding));
                        }
                    }
                }
                return Err(StoreError::StorageParse);
            },
        };
        recs.push(MatchRecord { error_text: err, fix_text: fix, embedding: emb });
        pos = j3 + 1;
        proof {
            assert forall|c: Seq<RecordModel>|
                coll_wf(c) && input@ == #[trigger] render(c) implies views_of(recs@).len()
                <= c.len() && views_of(recs@) == c.take(views_of(recs@).len() as int)
                && input@.skip(pos as int) == render(c.skip(views_of(recs@).len() as int)) by {
                lemma_rec_lines(input@, c, k, opos);
                assert(j1 == opos + esc(c[k].error).len()) by {
                    if j1 < opos + esc(c[k].error).len() {
                        assert(input@[j1 as int] != 10);
                    } else if j1 > opos + esc(c[k].error).len() {
                        assert(input@[opos + esc(c[k].error).len()] == 10);
                    }
                }
                assert(j2 == j1 + 1 + esc(c[k].fix).len()) by {
                    if j2 < j1 + 1 + esc(c[k].fix).len() {
                        assert(input@[j2 as int] != 10);
                    } else if j2 > j1 + 1 + esc(c[k].fix).len() {
                        assert(input@[j1 + 1 + esc(c[k].fix).len()] == 10);
                    }
                }
                assert(j3 == j2 + 1 + render_nums(c[k].embedding).len()) by {
                    if j3 < j2 + 1 + render_nums(c[k].embedding).len() {
                        assert(input@[j3 as int] != 10);
                    } else if j3 > j2 + 1 + render_nums(c[k].embedding).len() {
                        assert(input@[j2 + 1 + render_nums(c[k].embedding).len()] == 10);
                    }
                }
                assert(line1@ == esc(c[k].error));
                assert(line2@ == esc(c[k].fix));
                assert(line3@ == render_nums(c[k].embedding));
                assert(err@ == c[k].error);
                assert(fix@ == c[k].fix);
                assert(emb@ == c[k].embedding);
                assert(recs@ == orecs.push(recs@.last()));
                assert(recs@.last()@ =~= c[k]);
                assert(views_of(recs@) =~= views_of(orecs).push(recs@.last()@));
                assert(views_of(recs@) =~= c.take(k + 1));
            }
        }
    }
    let col = RecordCollection::from_vec(recs);
    proof {
        assert forall|c: Seq<RecordModel>|
            coll_wf(c) && input@ == #[trigger] render(c) implies col@ == c by {
            let k = col@.len() as int;
            if k < c.len() {
                lemma_render_rec_nonempty(c.skip(k)[0]);
                assert(render(c.skip(k)) == render_rec(c.skip(k)[0]) + render(
                    c.skip(k).drop_first(),
                ));
                assert(input@.skip(pos as int).len() == 0);
            }
            assert(col@ =~= c);
        }
    }
    if !col.is_wf() {
        return Err(StoreError::StorageParse);
    }
    let rendered = to_bytes(&col);
    if !bytes_eq(&rendered, input) {
        return Err(StoreError::StorageParse);
    }
    Ok(col)
}

} // verus!

