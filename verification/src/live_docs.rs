//! Lucene-style live documents of one segment: every id in `0..max_doc`
//! starts live, deletions are idempotent, iteration is ascending.

use vstd::prelude::*;

verus! {

/// Errors returned when mutating or inspecting live-doc state.
#[derive(Debug, Clone, Copy, PartialEq, Eq, Structural)]
pub enum LiveDocsError {
    /// The requested document id is greater than or equal to `max_doc`.
    DocIdOutOfRange { doc_id: u32, max_doc: u32 },
}

/// Number of deleted flags among the first `n` entries.
pub open spec fn count_deleted_upto(s: Seq<bool>, n: int) -> nat
    decreases n,
{
    if n <= 0 {
        0
    } else {
        count_deleted_upto(s, n - 1) + if s[n - 1] {
            1nat
        } else {
            0nat
        }
    }
}

pub open spec fn count_deleted(s: Seq<bool>) -> nat {
    count_deleted_upto(s, s.len() as int)
}

/// The live ids among `0..n`, ascending.
pub open spec fn live_ids_upto(s: Seq<bool>, n: int) -> Seq<u32>
    decreases n,
{
    if n <= 0 {
        Seq::empty()
    } else if s[n - 1] {
        live_ids_upto(s, n - 1)
    } else {
        live_ids_upto(s, n - 1).push((n - 1) as u32)
    }
}

pub open spec fn live_ids(s: Seq<bool>) -> Seq<u32> {
    live_ids_upto(s, s.len() as int)
}

/// What `delete` does to the deleted flags, and what it answers.
pub open spec fn delete_spec(s: Seq<bool>, doc_id: u32) -> (Seq<bool>, Result<bool, LiveDocsError>) {
    if doc_id >= s.len() {
        (s, Err(LiveDocsError::DocIdOutOfRange { doc_id, max_doc: s.len() as u32 }))
    } else if s[doc_id as int] {
        (s, Ok(false))
    } else {
        (s.update(doc_id as int, true), Ok(true))
    }
}

/// What `is_live` answers.
pub open spec fn is_live_spec(s: Seq<bool>, doc_id: u32) -> Result<bool, LiveDocsError> {
    if doc_id >= s.len() {
        Err(LiveDocsError::DocIdOutOfRange { doc_id, max_doc: s.len() as u32 })
    } else {
        Ok(!s[doc_id as int])
    }
}

proof fn lemma_count_update(s: Seq<bool>, d: int, n: int)
    requires
        0 <= d < s.len(),
        0 <= n <= s.len(),
        !s[d],
    ensures
        count_deleted_upto(s.update(d, true), n) == count_deleted_upto(s, n) + if d < n {
            1nat
        } else {
            0nat
        },
    decreases n,
{
    if n > 0 {
        lemma_count_update(s, d, n - 1);
    }
}

proof fn lemma_count_bounded(s: Seq<bool>, n: int)
    requires
        0 <= n <= s.len(),
    ensures
        count_deleted_upto(s, n) + live_ids_upto(s, n).len() == n,
    decreases n,
{
    if n > 0 {
        lemma_count_bounded(s, n - 1);
    }
}

proof fn lemma_live_ids_shape(s: Seq<bool>, n: int)
    requires
        0 <= n <= s.len(),
        s.len() <= u32::MAX + 1,
    ensures
        forall|i: int| 0 <= i < live_ids_upto(s, n).len() ==> #[trigger] live_ids_upto(s, n)[i] < n,
        forall|i: int, j: int|
            0 <= i < j < live_ids_upto(s, n).len() ==> live_ids_upto(s, n)[i] < live_ids_upto(s, n)[j],
        forall|d: int| 0 <= d < n ==> (!s[d] <==> live_ids_upto(s, n).contains(d as u32)),
    decreases n,
{
    if n > 0 {
        lemma_live_ids_shape(s, n - 1);
        let prev = live_ids_upto(s, n - 1);
        if !s[n - 1] {
            let cur = prev.push((n - 1) as u32);
            assert forall|d: int| 0 <= d < n implies (!s[d] <==> cur.contains(d as u32)) by {
                if d < n - 1 {
                    if cur.contains(d as u32) {
                        let k = choose|k: int| 0 <= k < cur.len() && cur[k] == d as u32;
                        if k < prev.len() {
                            assert(prev.contains(d as u32));
                        }
                    }
                    if prev.contains(d as u32) {
                        let k = choose|k: int| 0 <= k < prev.len() && prev[k] == d as u32;
                        assert(cur[k] == d as u32);
                    }
                } else {
                    assert(cur[cur.len() - 1] == d as u32);
                }
            }
        } else {
            assert forall|d: int| 0 <= d < n implies (!s[d] <==> prev.contains(d as u32)) by {
                if d == n - 1 && prev.contains(d as u32) {
                    let k = choose|k: int| 0 <= k < prev.len() && prev[k] == d as u32;
                    assert(prev[k] < n - 1);
                }
            }
        }
    }
}

/// Tracks Lucene-style live documents for a segment.
#[derive(Debug, Clone, PartialEq, Eq)]
pub struct LiveDocs {
    max_doc: u32,
    deleted: Vec<bool>,
    deleted_count: u32,
}

impl View for LiveDocs {
    /// One deleted flag per document id in `0..max_doc`.
    type V = Seq<bool>;

    closed spec fn view(&self) -> Seq<bool> {
        self.deleted@
    }
}

impl LiveDocs {
    /// Well-formedness: one flag per id and an exact deleted counter.
    pub closed spec fn wf(&self) -> bool {
        &&& self.deleted@.len() == self.max_doc
        &&& self.deleted_count == count_deleted(self.deleted@)
    }

    /// Creates live-doc state with every document id in `0..max_doc` live.
    pub fn new(max_doc: u32) -> (r: Self)
        ensures
            r.wf(),
            r@ == Seq::new(max_doc as nat, |i: int| false),
    {
        let mut deleted: Vec<bool> = Vec::new();
        let mut i: u32 = 0;
        while i < max_doc
            invariant
                i <= max_doc,
                deleted@ == Seq::new(i as nat, |k: int| false),
            decreases max_doc - i,
        {
            deleted.push(false);
            i += 1;
            assert(deleted@ =~= Seq::new(i as nat, |k: int| false));
        }
        proof {
            let s = deleted@;
            assert forall|n: int| 0 <= n <= s.len() implies count_deleted_upto(s, n) == 0 by {
                lemma_count_zero(s, n);
            }
        }
        LiveDocs { max_doc, deleted, deleted_count: 0 }
    }

    /// Returns the exclusive upper bound for valid document ids.
    pub fn max_doc(&self) -> (r: u32)
        requires
            self.wf(),
        ensures
            r == self@.len(),
    {
        self.max_doc
    }

    /// Refuses a document id at or past the bound.
    fn validate_doc_id(&self, doc_id: u32) -> (r: Result<(), LiveDocsError>)
        requires
            self.wf(),
        ensures
            doc_id < self@.len() <==> r is Ok,
            r matches Err(e) ==> e == (LiveDocsError::DocIdOutOfRange { doc_id, max_doc: self@.len() as u32 }),
    {
        if doc_id >= self.max_doc {
            return Err(LiveDocsError::DocIdOutOfRange { doc_id, max_doc: self.max_doc });
        }
        Ok(())
    }

    /// Returns whether `doc_id` is currently live.
    pub fn is_live(&self, doc_id: u32) -> (r: Result<bool, LiveDocsError>)
        requires
            self.wf(),
        ensures
            r == is_live_spec(self@, doc_id),
    {
        match self.validate_doc_id(doc_id) {
            Err(e) => return Err(e),
            Ok(()) => {},
        }
        Ok(!self.deleted[doc_id as usize])
    }

    /// Marks `doc_id` as deleted; `Ok(true)` when this call changed the state,
    /// `Ok(false)` when the document had already been deleted.
    pub fn delete(&mut self, doc_id: u32) -> (r: Result<bool, LiveDocsError>)
        requires
            old(self).wf(),
        ensures
            final(self).wf(),
            (final(self)@, r) == delete_spec(old(self)@, doc_id),
    {
        match self.validate_doc_id(doc_id) {
            Err(e) => return Err(e),
            Ok(()) => {},
        }
        let idx = doc_id as usize;
        if self.deleted[idx] {
            return Ok(false);
        }
        proof {
            lemma_count_update(self.deleted@, idx as int, self.deleted@.len() as int);
            lemma_count_bounded(self.deleted@.update(idx as int, true), self.deleted@.len() as int);
        }
        self.deleted_count = self.deleted_count + 1;
        self.deleted.set(idx, true);
        Ok(true)
    }

    /// Returns the number of currently live documents.
    pub fn live_count(&self) -> (r: u32)
        requires
            self.wf(),
        ensures
            r == self@.len() - count_deleted(self@),
            r == live_ids(self@).len(),
    {
        proof {
            lemma_count_bounded(self.deleted@, self.deleted@.len() as int);
        }
        self.max_doc - self.deleted_count
    }

    /// Returns the number of deleted documents.
    pub fn deleted_count(&self) -> (r: u32)
        requires
            self.wf(),
        ensures
            r == count_deleted(self@),
    {
        self.deleted_count
    }

    /// Live document ids in ascending order (the original exposes an iterator).
    pub fn iter_live_doc_ids(&self) -> (r: Vec<u32>)
        requires
            self.wf(),
        ensures
            r@ == live_ids(self@),
    {
        let mut out: Vec<u32> = Vec::new();
        let mut i: u32 = 0;
        while i < self.max_doc
            invariant
                i <= self.max_doc,
                self.deleted@.len() == self.max_doc,
                out@ == live_ids_upto(self.deleted@, i as int),
            decreases self.max_doc - i,
        {
            if !self.deleted[i as usize] {
                out.push(i);
            }
            i += 1;
        }
        out
    }
}

proof fn lemma_count_zero(s: Seq<bool>, n: int)
    requires
        0 <= n <= s.len(),
        forall|i: int| 0 <= i < s.len() ==> !s[i],
    ensures
        count_deleted_upto(s, n) == 0,
    decreases n,
{
    if n > 0 {
        lemma_count_zero(s, n - 1);
    }
}

/// The live ids are exactly the ids in `0..max_doc` that are not deleted, in
/// strictly ascending order, and together with the deleted count they make up
/// `max_doc`.
pub proof fn law_live_ids_partition(s: Seq<bool>)
    requires
        s.len() <= u32::MAX,
    ensures
        live_ids(s).len() + count_deleted(s) == s.len(),
        forall|i: int, j: int| 0 <= i < j < live_ids(s).len() ==> live_ids(s)[i] < live_ids(s)[j],
        forall|d: u32| d < s.len() ==> (!s[d as int] <==> live_ids(s).contains(d)),
        forall|i: int| 0 <= i < live_ids(s).len() ==> #[trigger] live_ids(s)[i] < s.len(),
{
    lemma_count_bounded(s, s.len() as int);
    lemma_live_ids_shape(s, s.len() as int);
}

/// Deleting is idempotent: a second deletion of the same id reports `false`
/// and changes nothing.
pub proof fn law_delete_idempotent(s: Seq<bool>, doc_id: u32)
    ensures
        delete_spec(delete_spec(s, doc_id).0, doc_id).0 == delete_spec(s, doc_id).0,
        doc_id < s.len() ==> delete_spec(delete_spec(s, doc_id).0, doc_id).1 == Ok::<bool, LiveDocsError>(false),
{
}

/// A successful deletion moves exactly one document from live to deleted.
pub proof fn law_delete_counts(s: Seq<bool>, doc_id: u32)
    requires
        doc_id < s.len(),
        !s[doc_id as int],
    ensures
        count_deleted(delete_spec(s, doc_id).0) == count_deleted(s) + 1,
        live_ids(delete_spec(s, doc_id).0).len() + 1 == live_ids(s).len(),
{
    lemma_count_update(s, doc_id as int, s.len() as int);
    lemma_count_bounded(s, s.len() as int);
    lemma_count_bounded(s.update(doc_id as int, true), s.len() as int);
}

/// The deleted flags after the deletes of `ds`, in order, starting from
/// `s`.
pub open spec fn deletes_applied(s: Seq<bool>, ds: Seq<u32>) -> Seq<bool>
    decreases ds.len(),
{
    if ds.len() == 0 {
        s
    } else {
        delete_spec(deletes_applied(s, ds.drop_last()), ds.last()).0
    }
}

/// Starting with every one of `n` documents live, after any run of
/// deletes a document is live exactly when no delete named it, and an id
/// at or past `n` is refused.
pub proof fn law_deletes_then_is_live(n: nat, ds: Seq<u32>, d: u32)
    requires
        n <= u32::MAX,
    ensures
        is_live_spec(deletes_applied(Seq::new(n, |i: int| false), ds), d) == if d >= n {
            Err::<bool, LiveDocsError>(LiveDocsError::DocIdOutOfRange { doc_id: d, max_doc: n as u32 })
        } else {
            Ok::<bool, LiveDocsError>(!ds.contains(d))
        },
    decreases ds.len(),
{
    let s0 = Seq::new(n, |i: int| false);
    lemma_deletes_keep_length(s0, ds);
    if ds.len() > 0 {
        law_deletes_then_is_live(n, ds.drop_last(), d);
        let prev = deletes_applied(s0, ds.drop_last());
        lemma_deletes_keep_length(s0, ds.drop_last());
        assert(ds.contains(d) <==> (ds.drop_last().contains(d) || ds.last() == d)) by {
            if ds.contains(d) {
                let k = choose|k: int| 0 <= k < ds.len() && ds[k] == d;
                if k < ds.len() - 1 {
                    assert(ds.drop_last()[k] == d);
                }
            }
            if ds.drop_last().contains(d) {
                let k = choose|k: int| 0 <= k < ds.drop_last().len() && ds.drop_last()[k] == d;
                assert(ds[k] == d);
            }
            if ds.last() == d {
                assert(ds[ds.len() - 1] == d);
            }
        }
    }
}

proof fn lemma_deletes_keep_length(s: Seq<bool>, ds: Seq<u32>)
    ensures
        deletes_applied(s, ds).len() == s.len(),
    decreases ds.len(),
{
    if ds.len() > 0 {
        lemma_deletes_keep_length(s, ds.drop_last());
    }
}

} // verus!
