//! The record store: the ordered collection of matching records, its
//! well-formedness invariant, appending and embedding backfill.
//!
//! A record pairs an error text with a fix text and an embedding vector.
//! Texts are byte strings; embeddings are fixed-point vectors (see
//! `similarity`).  An empty embedding means "not yet computed".  Once
//! non-empty, every embedding in a collection has the same length: the
//! dimensionality fixed by the embedding provider.

use vstd::prelude::*;

use crate::similarity::{comps_bounded, COMP_LIMIT, MAX_DIM};

verus! {

/// One stored record: the error message it answers for, the remediation
/// text, and the embedding of the error message (empty when not yet
/// computed).
pub struct MatchRecord {
    pub error_text: Vec<u8>,
    pub fix_text: Vec<u8>,
    pub embedding: Vec<i32>,
}

/// The mathematical model of a record.
#[verifier::ext_equal]
pub ghost struct RecordModel {
    pub error: Seq<u8>,
    pub fix: Seq<u8>,
    pub embedding: Seq<i32>,
}

impl View for MatchRecord {
    type V = RecordModel;

    open spec fn view(&self) -> RecordModel {
        RecordModel { error: self.error_text@, fix: self.fix_text@, embedding: self.embedding@ }
    }
}

/// The models of a sequence of records.
pub open spec fn views_of(s: Seq<MatchRecord>) -> Seq<RecordModel> {
    s.map_values(|r: MatchRecord| r@)
}

/// The views of a sequence of byte vectors.
pub open spec fn byte_views(s: Seq<Vec<u8>>) -> Seq<Seq<u8>> {
    s.map_values(|v: Vec<u8>| v@)
}

/// The views of a sequence of embedding vectors.
pub open spec fn comp_views(s: Seq<Vec<i32>>) -> Seq<Seq<i32>> {
    s.map_values(|v: Vec<i32>| v@)
}

/// A single record is well formed: its error text is non-empty and its
/// embedding is a bounded fixed-point vector of admissible length.
pub open spec fn rec_wf(r: RecordModel) -> bool {
    &&& r.error.len() > 0
    &&& r.embedding.len() <= MAX_DIM as int
    &&& comps_bounded(r.embedding)
}

/// A collection is well formed: every record is well formed and all
/// non-empty embeddings share one length, the established dimensionality.
pub open spec fn coll_wf(s: Seq<RecordModel>) -> bool {
    &&& forall|i: int| 0 <= i < s.len() ==> rec_wf(#[trigger] s[i])
    &&& forall|i: int, j: int|
        0 <= i < s.len() && 0 <= j < s.len() && (#[trigger] s[i]).embedding.len() > 0 && (
        #[trigger] s[j]).embedding.len() > 0 ==> s[i].embedding.len() == s[j].embedding.len()
}

/// An embedding of this length may join the collection: it is either
/// empty (not yet computed) or matches every established length.
pub open spec fn emb_compatible(s: Seq<RecordModel>, e: Seq<i32>) -> bool {
    e.len() == 0 || forall|i: int|
        0 <= i < s.len() && (#[trigger] s[i]).embedding.len() > 0 ==> s[i].embedding.len()
            == e.len()
}

/// Why an append is rejected, if it is: an empty error text, an
/// over-long or out-of-range embedding, or a length that contradicts the
/// established dimensionality.  `None` means the record is accepted.
pub open spec fn append_check(s: Seq<RecordModel>, r: RecordModel) -> Option<StoreError> {
    if r.error.len() == 0 {
        Some(StoreError::EmptyErrorText)
    } else if r.embedding.len() > MAX_DIM as int {
        Some(StoreError::DimensionMismatch)
    } else if !comps_bounded(r.embedding) {
        Some(StoreError::ComponentOutOfRange)
    } else if !emb_compatible(s, r.embedding) {
        Some(StoreError::DimensionMismatch)
    } else {
        None
    }
}

/// How many records still lack an embedding.
pub open spec fn missing_count(s: Seq<RecordModel>) -> nat
    decreases s.len(),
{
    if s.len() == 0 {
        0
    } else {
        (if s[0].embedding.len() == 0 {
            1nat
        } else {
            0nat
        }) + missing_count(s.drop_first())
    }
}

/// The error texts of the records that still lack an embedding, in
/// collection order.
pub open spec fn missing_texts(s: Seq<RecordModel>) -> Seq<Seq<u8>>
    decreases s.len(),
{
    if s.len() == 0 {
        Seq::empty()
    } else if s[0].embedding.len() == 0 {
        seq![s[0].error] + missing_texts(s.drop_first())
    } else {
        missing_texts(s.drop_first())
    }
}

/// The record with its embedding replaced.
pub open spec fn filled(r: RecordModel, e: Seq<i32>) -> RecordModel {
    RecordModel { embedding: e, ..r }
}

/// The collection after backfill: each record lacking an embedding takes
/// the next vector from `es`, in collection order; others are unchanged.
pub open spec fn spec_backfill(s: Seq<RecordModel>, es: Seq<Seq<i32>>) -> Seq<RecordModel>
    decreases s.len(),
{
    if s.len() == 0 {
        s
    } else if s[0].embedding.len() == 0 {
        seq![filled(s[0], es[0])] + spec_backfill(s.drop_first(), es.drop_first())
    } else {
        seq![s[0]] + spec_backfill(s.drop_first(), es)
    }
}

/// The vectors `es` have acceptable lengths for backfilling `s`: one
/// per missing embedding, all non-empty, of one shared length that
/// agrees with any dimensionality the collection has established.
pub open spec fn backfill_lens_ok(s: Seq<RecordModel>, es: Seq<Seq<i32>>) -> bool {
    &&& es.len() == missing_count(s)
    &&& forall|k: int|
        0 <= k < es.len() ==> 0 < (#[trigger] es[k]).len() <= MAX_DIM as int && emb_compatible(
            s,
            es[k],
        ) && es[k].len() == es[0].len()
}

/// Every offered vector keeps its components in the fixed-point range.
pub open spec fn backfill_comps_ok(es: Seq<Seq<i32>>) -> bool {
    forall|k: int| 0 <= k < es.len() ==> comps_bounded(#[trigger] es[k])
}

/// The vectors `es` are acceptable for backfilling `s`.
pub open spec fn backfill_ok(s: Seq<RecordModel>, es: Seq<Seq<i32>>) -> bool {
    backfill_lens_ok(s, es) && backfill_comps_ok(es)
}

/// The errors the store can report.
#[derive(Clone, Copy, PartialEq, Eq, Debug)]
pub enum StoreError {
    /// Durable content exists but does not conform to the record format.
    StorageParse,
    /// An embedding's length contradicts the established dimensionality.
    DimensionMismatch,
    /// A record's error text is empty.
    EmptyErrorText,
    /// An embedding component lies outside the fixed-point range.
    ComponentOutOfRange,
}

impl StoreError {
    /// A human-readable cause, for reporting to the operator.
    pub fn message(&self) -> (r: &'static str)
        ensures
            self is StorageParse ==> r@ == "stored records do not match the expected format"@,
            self is DimensionMismatch ==> r@ == "embedding length contradicts the established dimensionality"@,
            self is EmptyErrorText ==> r@ == "a record's error text must not be empty"@,
            self is ComponentOutOfRange ==> r@ == "an embedding component is outside the fixed-point range"@,
    {
        match self {
            StoreError::StorageParse => "stored records do not match the expected format",
            StoreError::DimensionMismatch => "embedding length contradicts the established dimensionality",
            StoreError::EmptyErrorText => "a record's error text must not be empty",
            StoreError::ComponentOutOfRange => "an embedding component is outside the fixed-point range",
        }
    }
}

/// The ordered collection of records, insertion order preserved.
pub struct RecordCollection {
    pub(crate) recs: Vec<MatchRecord>,
}

impl View for RecordCollection {
    type V = Seq<RecordModel>;

    closed spec fn view(&self) -> Seq<RecordModel> {
        views_of(self.recs@)
    }
}

/// Copies a byte string.
pub fn clone_bytes(v: &Vec<u8>) -> (r: Vec<u8>)
    ensures
        r@ == v@,
{
    let mut out: Vec<u8> = Vec::new();
    let mut i: usize = 0;
    while i < v.len()
        invariant
            i <= v@.len(),
            out@ == v@.take(i as int),
        decreases v@.len() - i,
    {
        out.push(v[i]);
        proof {
            assert(out@ =~= v@.take(i + 1));
        }
        i = i + 1;
    }
    proof {
        assert(v@.take(v@.len() as int) =~= v@);
    }
    out
}

/// Copies an embedding vector.
pub fn clone_comps(v: &Vec<i32>) -> (r: Vec<i32>)
    ensures
        r@ == v@,
{
    let mut out: Vec<i32> = Vec::new();
    let mut i: usize = 0;
    while i < v.len()
        invariant
            i <= v@.len(),
            out@ == v@.take(i as int),
        decreases v@.len() - i,
    {
        out.push(v[i]);
        proof {
            assert(out@ =~= v@.take(i + 1));
        }
        i = i + 1;
    }
    proof {
        assert(v@.take(v@.len() as int) =~= v@);
    }
    out
}

/// Decides `comps_bounded` in executable code.
pub fn comps_ok(v: &Vec<i32>) -> (r: bool)
    ensures
        r == comps_bounded(v@),
{
    let mut i: usize = 0;
    while i < v.len()
        invariant
            i <= v@.len(),
            forall|j: int|
                0 <= j < i ==> -(COMP_LIMIT as int) <= #[trigger] v@[j] <= COMP_LIMIT as int,
        decreases v@.len() - i,
    {
        if v[i] < -COMP_LIMIT || v[i] > COMP_LIMIT {
            return false;
        }
        i = i + 1;
    }
    true
}

/// `missing_count` splits over any cut of the collection.
pub proof fn lemma_missing_split(s: Seq<RecordModel>, i: int)
    requires
        0 <= i <= s.len(),
    ensures
        missing_count(s) == missing_count(s.take(i)) + missing_count(s.skip(i)),
    decreases i,
{
    if i == 0 {
        assert(s.take(0) =~= Seq::<RecordModel>::empty());
        assert(s.skip(0) =~= s);
    } else {
        lemma_missing_split(s, i - 1);
        let a = s.take(i - 1);
        let b = s.take(i);
        assert(missing_count(b) == missing_count(a) + (if s[i - 1].embedding.len() == 0 {
            1nat
        } else {
            0nat
        })) by {
            lemma_missing_take_step(s, i);
        }
        assert(missing_count(s.skip(i - 1)) == (if s[i - 1].embedding.len() == 0 {
            1nat
        } else {
            0nat
        }) + missing_count(s.skip(i))) by {
            assert(s.skip(i - 1).len() > 0);
            assert(s.skip(i - 1)[0] == s[i - 1]);
            assert(s.skip(i - 1).drop_first() =~= s.skip(i));
        }
    }
}

/// Extending a prefix by one record adds its missing bit.
pub proof fn lemma_missing_take_step(s: Seq<RecordModel>, i: int)
    requires
        0 < i <= s.len(),
    ensures
        missing_count(s.take(i)) == missing_count(s.take(i - 1)) + (if s[i - 1].embedding.len()
            == 0 {
            1nat
        } else {
            0nat
        }),
    decreases i,
{
    if i == 1 {
        assert(s.take(1).drop_first() =~= Seq::<RecordModel>::empty());
        assert(s.take(0) =~= Seq::<RecordModel>::empty());
    } else {
        lemma_missing_take_step(s.drop_first(), i - 1);
        assert(s.take(i).drop_first() =~= s.drop_first().take(i - 1));
        assert(s.take(i - 1).drop_first() =~= s.drop_first().take(i - 2));
    }
}

/// Pointwise characterization of `spec_backfill`: the record at `j`
/// keeps its texts, and a record lacking an embedding receives the
/// vector whose index is the number of missing records before it.
pub proof fn lemma_backfill_pointwise(s: Seq<RecordModel>, es: Seq<Seq<i32>>)
    requires
        es.len() == missing_count(s),
    ensures
        spec_backfill(s, es).len() == s.len(),
        forall|j: int|
            0 <= j < s.len() ==> #[trigger] spec_backfill(s, es)[j] == (if s[j].embedding.len()
                == 0 {
                filled(s[j], es[missing_count(s.take(j)) as int])
            } else {
                s[j]
            }),
    decreases s.len(),
{
    if s.len() == 0 {
    } else {
        let t = s.drop_first();
        if s[0].embedding.len() == 0 {
            assert(missing_count(s) == 1 + missing_count(t));
            lemma_backfill_pointwise(t, es.drop_first());
            assert forall|j: int| 0 <= j < s.len() implies #[trigger] spec_backfill(s, es)[j] == (
            if s[j].embedding.len() == 0 {
                filled(s[j], es[missing_count(s.take(j)) as int])
            } else {
                s[j]
            }) by {
                if j == 0 {
                    assert(s.take(0) =~= Seq::<RecordModel>::empty());
                } else {
                    assert(spec_backfill(s, es)[j] == spec_backfill(t, es.drop_first())[j - 1]);
                    assert(t[j - 1] == s[j]);
                    assert(s.take(j).drop_first() =~= t.take(j - 1));
                    assert(missing_count(s.take(j)) == 1 + missing_count(t.take(j - 1)));
                    if s[j].embedding.len() == 0 {
                        lemma_missing_split(t, j - 1);
                        assert(t.skip(j - 1)[0] == t[j - 1]);
                        assert(t.skip(j - 1).len() > 0);
                        assert(missing_count(t.skip(j - 1)) >= 1) by {
                            assert(t.skip(j - 1).drop_first() =~= t.skip(j));
                        }
                        assert(missing_count(t.take(j - 1)) < es.drop_first().len());
                        assert(es.drop_first()[missing_count(t.take(j - 1)) as int] == es[
                            missing_count(s.take(j)) as int]);
                    }
                }
            }
        } else {
            assert(missing_count(s) == missing_count(t));
            lemma_backfill_pointwise(t, es);
            assert forall|j: int| 0 <= j < s.len() implies #[trigger] spec_backfill(s, es)[j] == (
            if s[j].embedding.len() == 0 {
                filled(s[j], es[missing_count(s.take(j)) as int])
            } else {
                s[j]
            }) by {
                if j == 0 {
                } else {
                    assert(spec_backfill(s, es)[j] == spec_backfill(t, es)[j - 1]);
                    assert(t[j - 1] == s[j]);
                    assert(s.take(j).drop_first() =~= t.take(j - 1));
                    assert(missing_count(s.take(j)) == missing_count(t.take(j - 1)));
                }
            }
        }
    }
}

/// A collection with no missing embeddings is left unchanged by
/// backfill, whatever vectors are offered: running backfill a second
/// time after a successful run changes nothing.
pub proof fn lemma_backfill_idempotent(s: Seq<RecordModel>, es: Seq<Seq<i32>>)
    requires
        missing_count(s) == 0,
    ensures
        spec_backfill(s, es) == s,
    decreases s.len(),
{
    if s.len() == 0 {
        assert(spec_backfill(s, es) =~= s);
    } else {
        assert(s[0].embedding.len() != 0);
        lemma_backfill_idempotent(s.drop_first(), es);
        assert(spec_backfill(s, es) =~= s);
    }
}

/// A collection whose records all have embeddings has no missing count.
pub proof fn lemma_no_missing(s: Seq<RecordModel>)
    requires
        forall|j: int| 0 <= j < s.len() ==> (#[trigger] s[j]).embedding.len() > 0,
    ensures
        missing_count(s) == 0,
    decreases s.len(),
{
    if s.len() == 0 {
    } else {
        lemma_no_missing(s.drop_first());
    }
}

impl RecordCollection {
    /// The collection's well-formedness invariant.
    pub open spec fn wf(&self) -> bool {
        coll_wf(self@)
    }

    /// An empty collection: the valid fresh-start state.
    pub fn new() -> (r: RecordCollection)
        ensures
            r@ == Seq::<RecordModel>::empty(),
            r.wf(),
    {
        let r = RecordCollection { recs: Vec::new() };
        proof {
            assert(r@ =~= Seq::<RecordModel>::empty());
        }
        r
    }

    /// Wraps an already-built vector of records.
    pub(crate) fn from_vec(recs: Vec<MatchRecord>) -> (r: RecordCollection)
        ensures
            r@ == views_of(recs@),
    {
        RecordCollection { recs }
    }

    /// The number of records.
    pub fn len(&self) -> (r: usize)
        ensures
            r == self@.len(),
    {
        self.recs.len()
    }

    /// The record at index `i`.
    pub fn get(&self, i: usize) -> (r: &MatchRecord)
        requires
            i < self@.len(),
        ensures
            r@ == self@[i as int],
    {
        &self.recs[i]
    }

    /// Decides the well-formedness invariant in executable code.
    pub fn is_wf(&self) -> (r: bool)
        ensures
            r == coll_wf(self@),
    {
        let n = self.recs.len();
        let mut dim: usize = 0;
        let mut i: usize = 0;
        while i < n
            invariant
                i <= n,
                n == self@.len(),
                n == self.recs@.len(),
                forall|j: int| 0 <= j < i ==> rec_wf(#[trigger] self@[j]),
                dim == 0 ==> forall|j: int|
                    0 <= j < i ==> (#[trigger] self@[j]).embedding.len() == 0,
                dim != 0 ==> exists|j: int|
                    0 <= j < i && (#[trigger] self@[j]).embedding.len() == dim,
                dim != 0 ==> forall|j: int|
                    0 <= j < i && (#[trigger] self@[j]).embedding.len() > 0 ==> self@[
                        j].embedding.len() == dim,
            decreases n - i,
        {
            let rec = &self.recs[i];
            proof {
                assert(self@[i as int] == rec@);
            }
            if rec.error_text.len() == 0 {
                return false;
            }
            if rec.embedding.len() > MAX_DIM {
                return false;
            }
            if !comps_ok(&rec.embedding) {
                return false;
            }
            if rec.embedding.len() > 0 {
                if dim == 0 {
                    dim = rec.embedding.len();
                } else if rec.embedding.len() != dim {
                    return false;
                }
            }
            i = i + 1;
        }
        true
    }

    /// Appends one record at the end, or rejects it with the reason
    /// `append_check` gives; the collection is unchanged on rejection.
    pub fn append(&mut self, rec: MatchRecord) -> (r: Result<(), StoreError>)
        requires
            old(self).wf(),
        ensures
            final(self).wf(),
            (match r {
                Ok(()) => append_check(old(self)@, rec@) is None && final(self)@ == old(
                    self,
                )@.push(rec@),
                Err(e) => append_check(old(self)@, rec@) == Some(e) && final(self)@ == old(self)@,
            }),
    {
        if rec.error_text.len() == 0 {
            return Err(StoreError::EmptyErrorText);
        }
        if rec.embedding.len() > MAX_DIM {
            return Err(StoreError::DimensionMismatch);
        }
        if !comps_ok(&rec.embedding) {
            return Err(StoreError::ComponentOutOfRange);
        }
        if !self.emb_ok(&rec.embedding) {
            return Err(StoreError::DimensionMismatch);
        }
        proof {
            let s = self@;
            let v = rec@;
            assert forall|i: int, j: int|
                0 <= i < s.push(v).len() && 0 <= j < s.push(v).len() && (#[trigger] s.push(
                    v,
                )[i]).embedding.len() > 0 && (#[trigger] s.push(v)[j]).embedding.len()
                    > 0 implies s.push(v)[i].embedding.len() == s.push(v)[j].embedding.len() by {
                if i < s.len() && j < s.len() {
                } else if i == s.len() && j == s.len() {
                } else if i == s.len() {
                    assert(s[j].embedding.len() == v.embedding.len());
                } else {
                    assert(s[i].embedding.len() == v.embedding.len());
                }
            }
        }
        let ghost oldv = self@;
        self.recs.push(rec);
        proof {
            assert(self@ =~= oldv.push(self.recs@.last()@));
        }
        Ok(())
    }

    /// Decides `emb_compatible` in executable code.
    fn emb_ok(&self, e: &Vec<i32>) -> (r: bool)
        ensures
            r == emb_compatible(self@, e@),
    {
        if e.len() == 0 {
            return true;
        }
        let n = self.recs.len();
        let mut i: usize = 0;
        while i < n
            invariant
                i <= n,
                n == self@.len(),
                n == self.recs@.len(),
                e@.len() > 0,
                forall|j: int|
                    0 <= j < i && (#[trigger] self@[j]).embedding.len() > 0 ==> self@[
                        j].embedding.len() == e@.len(),
            decreases n - i,
        {
            let rec = &self.recs[i];
            proof {
                assert(self@[i as int] == rec@);
            }
            if rec.embedding.len() > 0 && rec.embedding.len() != e.len() {
                return false;
            }
            i = i + 1;
        }
        true
    }

    /// The number of records that still lack an embedding.
    pub fn count_missing(&self) -> (r: usize)
        ensures
            r == missing_count(self@),
    {
        let n = self.recs.len();
        let mut cnt: usize = 0;
        let mut i: usize = 0;
        proof {
            assert(self@.skip(0) =~= self@);
        }
        while i < n
            invariant
                i <= n,
                n == self@.len(),
                n == self.recs@.len(),
                cnt <= i,
                cnt + missing_count(self@.skip(i as int)) == missing_count(self@),
            decreases n - i,
        {
            let rec = &self.recs[i];
            proof {
                assert(self@[i as int] == rec@);
                assert(self@.skip(i as int).len() > 0);
                assert(self@.skip(i as int)[0] == self@[i as int]);
                assert(self@.skip(i as int).drop_first() =~= self@.skip(i + 1));
            }
            if rec.embedding.len() == 0 {
                cnt = cnt + 1;
            }
            i = i + 1;
        }
        proof {
            assert(self@.skip(n as int) =~= Seq::<RecordModel>::empty());
        }
        cnt
    }

    /// The error texts of the records that still lack an embedding, in
    /// collection order: what the embedding provider must encode.
    pub fn pending_texts(&self) -> (r: Vec<Vec<u8>>)
        ensures
            byte_views(r@) == missing_texts(self@),
    {
        let n = self.recs.len();
        let mut out: Vec<Vec<u8>> = Vec::new();
        let mut i: usize = 0;
        proof {
            assert(self@.skip(0) =~= self@);
            assert(byte_views(out@) + missing_texts(self@) =~= missing_texts(self@));
        }
        while i < n
            invariant
                i <= n,
                n == self@.len(),
                n == self.recs@.len(),
                byte_views(out@) + missing_texts(self@.skip(i as int)) == missing_texts(self@),
            decreases n - i,
        {
            let rec = &self.recs[i];
            proof {
                assert(self@[i as int] == rec@);
                assert(self@.skip(i as int).len() > 0);
                assert(self@.skip(i as int)[0] == self@[i as int]);
                assert(self@.skip(i as int).drop_first() =~= self@.skip(i + 1));
            }
            if rec.embedding.len() == 0 {
                let t = clone_bytes(&rec.error_text);
                let ghost before = byte_views(out@);
                out.push(t);
                proof {
                    assert(byte_views(out@) =~= before + seq![rec@.error]);
                    assert(before + seq![rec@.error] + missing_texts(self@.skip(i + 1)) =~= before
                        + (seq![rec@.error] + missing_texts(self@.skip(i + 1))));
                }
            }
            i = i + 1;
        }
        proof {
            assert(self@.skip(n as int) =~= Seq::<RecordModel>::empty());
            assert(byte_views(out@) + missing_texts(self@.skip(n as int)) =~= byte_views(out@));
        }
        out
    }

    /// Fills every missing embedding with the next vector from `embs`,
    /// in collection order.  Rejects the whole batch — leaving the
    /// collection unchanged — unless `backfill_ok` holds of it.  Returns
    /// whether anything changed, which is exactly "some record was
    /// missing an embedding"; afterwards none is.
    pub fn apply_backfill(&mut self, embs: &Vec<Vec<i32>>) -> (r: Result<bool, StoreError>)
        requires
            old(self).wf(),
        ensures
            final(self).wf(),
            (match r {
                Ok(changed) => {
                    &&& backfill_ok(old(self)@, comp_views(embs@))
                    &&& final(self)@ == spec_backfill(old(self)@, comp_views(embs@))
                    &&& changed == (missing_count(old(self)@) > 0)
                    &&& missing_count(final(self)@) == 0
                },
                Err(e) => {
                    &&& final(self)@ == old(self)@
                    &&& (e == StoreError::DimensionMismatch && !backfill_lens_ok(
                        old(self)@,
                        comp_views(embs@),
                    )) || (e == StoreError::ComponentOutOfRange && backfill_lens_ok(
                        old(self)@,
                        comp_views(embs@),
                    ) && !backfill_comps_ok(comp_views(embs@)))
                },
            }),
    {
        let ghost s = self@;
        let ghost es = comp_views(embs@);
        let missing = self.count_missing();
        if embs.len() != missing {
            return Err(StoreError::DimensionMismatch);
        }
        // Validate the offered vectors: lengths first, then components.
        let mut k: usize = 0;
        while k < embs.len()
            invariant
                k <= embs@.len(),
                es == comp_views(embs@),
                es.len() == embs@.len(),
                s == self@,
                s == old(self)@,
                coll_wf(s),
                forall|l: int|
                    0 <= l < k ==> 0 < (#[trigger] es[l]).len() <= MAX_DIM as int && emb_compatible(
                        s,
                        es[l],
                    ) && es[l].len() == es[0].len(),
            decreases embs@.len() - k,
        {
            let e = &embs[k];
            proof {
                assert(es[k as int] == e@);
            }
            if e.len() == 0 || e.len() > MAX_DIM {
                return Err(StoreError::DimensionMismatch);
            }
            if !self.emb_ok(e) {
                return Err(StoreError::DimensionMismatch);
            }
            if e.len() != embs[0].len() {
                return Err(StoreError::DimensionMismatch);
            }
            k = k + 1;
        }
        let mut k2: usize = 0;
        while k2 < embs.len()
            invariant
                k2 <= embs@.len(),
                es == comp_views(embs@),
                es.len() == embs@.len(),
                s == self@,
                s == old(self)@,
                coll_wf(s),
                backfill_lens_ok(s, es),
                forall|l: int| 0 <= l < k2 ==> comps_bounded(#[trigger] es[l]),
            decreases embs@.len() - k2,
        {
            let e = &embs[k2];
            proof {
                assert(es[k2 as int] == e@);
            }
            if !comps_ok(e) {
                return Err(StoreError::ComponentOutOfRange);
            }
            k2 = k2 + 1;
        }
        proof {
            assert(backfill_ok(s, es));
            lemma_backfill_pointwise(s, es);
        }
        // Rebuild the record vector, filling as we go.
        let n = self.recs.len();
        let mut out: Vec<MatchRecord> = Vec::new();
        let mut used: usize = 0;
        let mut i: usize = 0;
        proof {
            assert(s.take(0) =~= Seq::<RecordModel>::empty());
        }
        while i < n
            invariant
                i <= n,
                n == self@.len(),
                n == self.recs@.len(),
                s == self@,
                s == old(self)@,
                es == comp_views(embs@),
                es.len() == embs@.len(),
                es.len() == missing_count(s),
                backfill_ok(s, es),
                spec_backfill(s, es).len() == s.len(),
                forall|j: int|
                    0 <= j < s.len() ==> #[trigger] spec_backfill(s, es)[j] == (if s[
                        j].embedding.len() == 0 {
                        filled(s[j], es[missing_count(s.take(j)) as int])
                    } else {
                        s[j]
                    }),
                used <= i,
                used == missing_count(s.take(i as int)),
                out@.len() == i,
                forall|j: int|
                    0 <= j < i ==> (#[trigger] out@[j])@ == spec_backfill(s, es)[j],
            decreases n - i,
        {
            let rec = &self.recs[i];
            proof {
                assert(self@[i as int] == rec@);
                lemma_missing_split(s, i as int);
                lemma_missing_take_step(s, i as int + 1);
            }
            if rec.embedding.len() == 0 {
                proof {
                    assert(s.skip(i as int)[0] == s[i as int]);
                    assert(s.skip(i as int).len() > 0);
                    assert(missing_count(s.skip(i as int)) >= 1) by {
                        assert(s.skip(i as int).drop_first() =~= s.skip(i as int + 1));
                    }
                }
                let e = clone_comps(&embs[used]);
                out.push(
                    MatchRecord {
                        error_text: clone_bytes(&rec.error_text),
                        fix_text: clone_bytes(&rec.fix_text),
                        embedding: e,
                    },
                );
                used = used + 1;
            } else {
                out.push(
                    MatchRecord {
                        error_text: clone_bytes(&rec.error_text),
                        fix_text: clone_bytes(&rec.fix_text),
                        embedding: clone_comps(&rec.embedding),
                    },
                );
            }
            i = i + 1;
        }
        let changed = missing > 0;
        self.recs = out;
        proof {
            assert(self@ =~= spec_backfill(s, es));
            assert forall|j: int|
                0 <= j < spec_backfill(s, es).len() implies (#[trigger] spec_backfill(
                s,
                es,
            )[j]).embedding.len() > 0 by {
                if s[j].embedding.len() == 0 {
                    lemma_missing_split(s, j);
                    assert(s.skip(j)[0] == s[j]);
                    assert(s.skip(j).drop_first() =~= s.skip(j + 1));
                    assert(missing_count(s.take(j)) < es.len());
                }
            }
            lemma_no_missing(spec_backfill(s, es));
            assert(coll_wf(spec_backfill(s, es))) by {
                let b = spec_backfill(s, es);
                assert forall|j: int| 0 <= j < b.len() implies rec_wf(#[trigger] b[j]) by {
                    if s[j].embedding.len() == 0 {
                        lemma_missing_split(s, j);
                        assert(s.skip(j)[0] == s[j]);
                        assert(s.skip(j).drop_first() =~= s.skip(j + 1));
                        assert(missing_count(s.take(j)) < es.len());
                    }
                }
                assert forall|i2: int, j2: int|
                    0 <= i2 < b.len() && 0 <= j2 < b.len() && (#[trigger] b[i2]).embedding.len()
                        > 0 && (#[trigger] b[j2]).embedding.len() > 0 implies b[
                    i2].embedding.len() == b[j2].embedding.len() by {
                    lemma_missing_split(s, i2);
                    lemma_missing_split(s, j2);
                    if s[i2].embedding.len() == 0 {
                        assert(s.skip(i2)[0] == s[i2]);
                        assert(s.skip(i2).drop_first() =~= s.skip(i2 + 1));
                        assert(missing_count(s.take(i2)) < es.len());
                    }
                    if s[j2].embedding.len() == 0 {
                        assert(s.skip(j2)[0] == s[j2]);
                        assert(s.skip(j2).drop_first() =~= s.skip(j2 + 1));
                        assert(missing_count(s.take(j2)) < es.len());
                    }
                }
            }
        }
        Ok(changed)
    }
}

} // verus!
