//! Stored fields: per-document named scalar values, written once per
//! document id and read back by id.

use vstd::prelude::*;

use crate::string_map::{sorted_names, str_views, StringMap};

verus! {

#[derive(Debug, Clone, Copy, PartialEq, Eq, Structural)]
pub enum StoredFieldsError {
    DuplicateDocId { doc_id: u32 },
    EmptyFieldName,
}

#[derive(Debug, PartialEq, Eq, Hash)]
pub enum StoredValue {
    String(String),
    Number(i64),
    Bool(bool),
    Null,
}

impl Clone for StoredValue {
    fn clone(&self) -> (r: Self)
        ensures
            r == *self,
    {
        match self {
            StoredValue::String(s) => StoredValue::String(s.clone()),
            StoredValue::Number(n) => StoredValue::Number(*n),
            StoredValue::Bool(b) => StoredValue::Bool(*b),
            StoredValue::Null => StoredValue::Null,
        }
    }
}

/// A document's named values, kept ordered by name.
#[derive(Debug, Clone, PartialEq, Eq)]
pub struct StoredDocument {
    fields: StringMap<StoredValue>,
}

impl StoredDocument {
    /// The field names, in `String` order.
    pub closed spec fn names(&self) -> Seq<Seq<char>> {
        self.fields.names()
    }

    /// The document as a map from field name to value.
    pub closed spec fn map(&self) -> Map<Seq<char>, StoredValue> {
        self.fields.map()
    }

    /// Well-formedness: an ordered map whose names are never empty.
    pub closed spec fn wf(&self) -> bool {
        &&& self.fields.wf()
        &&& forall|k: Seq<char>| #[trigger] self.fields.map().contains_key(k) ==> k.len() > 0
    }

    pub fn new() -> (r: Self)
        ensures
            r.wf(),
            r.map() == Map::<Seq<char>, StoredValue>::empty(),
    {
        StoredDocument { fields: StringMap::new() }
    }

    /// Builds a document by inserting the pairs in order (a later pair with
    /// the same name replaces an earlier one). The original panics on an
    /// empty name, so every name must be non-empty.
    pub fn from_fields(fields: Vec<(&str, StoredValue)>) -> (r: Self)
        requires
            forall|i: int| 0 <= i < fields@.len() ==> #[trigger] fields@[i].0@.len() > 0,
        ensures
            r.wf(),
            r.map() == fields_map(fields@, fields@.len() as int),
    {
        let mut document = Self::new();
        let mut i: usize = 0;
        while i < fields.len()
            invariant
                i <= fields@.len(),
                document.wf(),
                document.map() == fields_map(fields@, i as int),
                forall|k: int| 0 <= k < fields@.len() ==> #[trigger] fields@[k].0@.len() > 0,
            decreases fields.len() - i,
        {
            let value = fields[i].1.clone();
            let r = document.insert(fields[i].0, value);
            assert(r is Ok);
            i += 1;
        }
        document
    }

    /// Inserts or replaces the value of a non-empty field name.
    pub fn insert(&mut self, name: &str, value: StoredValue) -> (r: Result<(), StoredFieldsError>)
        requires
            old(self).wf(),
        ensures
            final(self).wf(),
            name@.len() == 0 ==> r == Err::<(), StoredFieldsError>(StoredFieldsError::EmptyFieldName)
                && final(self).map() == old(self).map(),
            name@.len() > 0 ==> r is Ok && final(self).map() == old(self).map().insert(name@, value),
    {
        if name.is_empty() {
            return Err(StoredFieldsError::EmptyFieldName);
        }
        self.fields.insert(name, value);
        Ok(())
    }

    pub fn get(&self, name: &str) -> (r: Option<&StoredValue>)
        requires
            self.wf(),
        ensures
            match r {
                Some(v) => self.map().contains_key(name@) && self.map()[name@] == *v,
                None => !self.map().contains_key(name@),
            },
    {
        self.fields.get(name)
    }

    /// The field names in `String` order.
    pub fn field_names(&self) -> (r: Vec<&str>)
        requires
            self.wf(),
        ensures
            str_views(r@) == self.names(),
            sorted_names(self.names()),
            self.names().to_set() == self.map().dom(),
    {
        self.fields.keys()
    }

    /// The `(name, value)` pairs in name order (the original exposes an iterator).
    pub fn iter(&self) -> (r: &[(String, StoredValue)])
        requires
            self.wf(),
        ensures
            r@.map_values(|e: (String, StoredValue)| e.0@) == self.names(),
            forall|i: int| 0 <= i < r@.len() ==> self.map()[#[trigger] r@[i].0@] == r@[i].1,
    {
        self.fields.entries()
    }

    pub fn is_empty(&self) -> (r: bool)
        requires
            self.wf(),
        ensures
            r == (self.map().dom().len() == 0),
    {
        self.fields.is_empty()
    }
}

/// The map built by inserting the first `n` pairs in order.
pub open spec fn fields_map(fields: Seq<(&str, StoredValue)>, n: int) -> Map<Seq<char>, StoredValue>
    decreases n,
{
    if n <= 0 {
        Map::empty()
    } else {
        fields_map(fields, n - 1).insert(fields[n - 1].0@, fields[n - 1].1)
    }
}

/// Document ids strictly increasing.
pub open spec fn sorted_ids(s: Seq<(u32, StoredDocument)>) -> bool {
    forall|i: int, j: int| 0 <= i < j < s.len() ==> #[trigger] s[i].0 < #[trigger] s[j].0
}

pub closed spec fn docs_map(s: Seq<(u32, StoredDocument)>) -> Map<u32, StoredDocument> {
    Map::new(
        |k: u32| exists|i: int| 0 <= i < s.len() && #[trigger] s[i].0 == k,
        |k: u32| s[choose|i: int| 0 <= i < s.len() && #[trigger] s[i].0 == k].1,
    )
}

pub closed spec fn docs_wf(s: Seq<(u32, StoredDocument)>) -> bool {
    &&& sorted_ids(s)
    &&& forall|i: int| 0 <= i < s.len() ==> (#[trigger] s[i]).1.wf()
}

proof fn lemma_docs_at(s: Seq<(u32, StoredDocument)>, i: int)
    requires
        sorted_ids(s),
        0 <= i < s.len(),
    ensures
        docs_map(s).contains_key(s[i].0),
        docs_map(s)[s[i].0] == s[i].1,
{
    let k = s[i].0;
    assert(docs_map(s).contains_key(k));
    let j = choose|j: int| 0 <= j < s.len() && #[trigger] s[j].0 == k;
    if j < i {
        assert(s[j].0 < s[i].0);
    } else if j > i {
        assert(s[i].0 < s[j].0);
    }
}

/// First position whose id is not below `doc_id`.
fn lower_bound(docs: &Vec<(u32, StoredDocument)>, doc_id: u32) -> (r: usize)
    requires
        sorted_ids(docs@),
    ensures
        r <= docs@.len(),
        forall|k: int| 0 <= k < r ==> #[trigger] docs@[k].0 < doc_id,
        forall|k: int| r <= k < docs@.len() ==> #[trigger] docs@[k].0 >= doc_id,
{
    let mut lo: usize = 0;
    let mut hi: usize = docs.len();
    while lo < hi
        invariant
            lo <= hi <= docs@.len(),
            sorted_ids(docs@),
            forall|k: int| 0 <= k < lo ==> #[trigger] docs@[k].0 < doc_id,
            forall|k: int| hi <= k < docs@.len() ==> #[trigger] docs@[k].0 >= doc_id,
        decreases hi - lo,
    {
        let mid = lo + (hi - lo) / 2;
        if docs[mid].0 < doc_id {
            assert forall|k: int| 0 <= k <= mid implies #[trigger] docs@[k].0 < doc_id by {
                if k < mid {
                    assert(docs@[k].0 < docs@[mid as int].0);
                }
            }
            lo = mid + 1;
        } else {
            assert forall|k: int| mid <= k < docs@.len() implies #[trigger] docs@[k].0 >= doc_id by {
                if k > mid {
                    assert(docs@[mid as int].0 < docs@[k].0);
                }
            }
            hi = mid;
        }
    }
    lo
}

/// Collects stored documents by document id; each id may be written once.
#[derive(Debug, Clone, PartialEq, Eq, Default)]
pub struct StoredFieldsWriter {
    documents: Vec<(u32, StoredDocument)>,
}

impl StoredFieldsWriter {
    /// The documents by id.
    pub closed spec fn docs(&self) -> Map<u32, StoredDocument> {
        docs_map(self.documents@)
    }

    pub closed spec fn wf(&self) -> bool {
        docs_wf(self.documents@)
    }

    pub fn new() -> (r: Self)
        ensures
            r.wf(),
            r.docs() == Map::<u32, StoredDocument>::empty(),
    {
        let r = StoredFieldsWriter { documents: Vec::new() };
        assert(r.docs() =~= Map::<u32, StoredDocument>::empty());
        r
    }

    pub fn add_document(&mut self, doc_id: u32, document: StoredDocument) -> (r: Result<(), StoredFieldsError>)
        requires
            old(self).wf(),
            document.wf(),
        ensures
            final(self).wf(),
            old(self).docs().contains_key(doc_id) ==> r == Err::<(), StoredFieldsError>(
                StoredFieldsError::DuplicateDocId { doc_id },
            ) && final(self).docs() == old(self).docs(),
            !old(self).docs().contains_key(doc_id) ==> r is Ok && final(self).docs() == old(self).docs().insert(doc_id, document),
    {
        let pos = lower_bound(&self.documents, doc_id);
        if pos < self.documents.len() && self.documents[pos].0 == doc_id {
            proof {
                lemma_docs_at(self.documents@, pos as int);
            }
            return Err(StoredFieldsError::DuplicateDocId { doc_id });
        }
        let ghost old_docs = self.documents@;
        proof {
            assert(!docs_map(old_docs).contains_key(doc_id)) by {
                if docs_map(old_docs).contains_key(doc_id) {
                    let j = choose|j: int| 0 <= j < old_docs.len() && #[trigger] old_docs[j].0 == doc_id;
                    if j > pos {
                        assert(old_docs[pos as int].0 < old_docs[j].0);
                    }
                }
            }
        }
        self.documents.insert(pos, (doc_id, document));
        proof {
            let nd = self.documents@;
            assert forall|a: int, b: int| 0 <= a < b < nd.len() implies #[trigger] nd[a].0 < #[trigger] nd[b].0 by {
                if b < pos {
                    assert(nd[a] == old_docs[a] && nd[b] == old_docs[b]);
                } else if b == pos {
                    assert(nd[a] == old_docs[a]);
                } else if a < pos {
                    assert(nd[a] == old_docs[a] && nd[b] == old_docs[b - 1]);
                } else if a == pos {
                    assert(nd[b] == old_docs[b - 1]);
                } else {
                    assert(nd[a] == old_docs[a - 1] && nd[b] == old_docs[b - 1]);
                }
            }
            assert forall|a: int| 0 <= a < nd.len() implies (#[trigger] nd[a]).1.wf() by {
                if a < pos {
                    assert(nd[a] == old_docs[a]);
                } else if a > pos {
                    assert(nd[a] == old_docs[a - 1]);
                }
            }
            assert(docs_map(nd) =~= docs_map(old_docs).insert(doc_id, document)) by {
                assert forall|k: u32| #[trigger] docs_map(nd).contains_key(k) <==> docs_map(old_docs).insert(doc_id, document).contains_key(k) by {
                    if docs_map(old_docs).contains_key(k) {
                        let j = choose|j: int| 0 <= j < old_docs.len() && #[trigger] old_docs[j].0 == k;
                        if j < pos {
                            assert(nd[j].0 == k);
                        } else {
                            assert(nd[j + 1].0 == k);
                        }
                    }
                    if docs_map(nd).contains_key(k) {
                        let j = choose|j: int| 0 <= j < nd.len() && #[trigger] nd[j].0 == k;
                        if j < pos {
                            assert(old_docs[j].0 == k);
                        } else if j > pos {
                            assert(old_docs[j - 1].0 == k);
                        }
                    }
                    if k == doc_id {
                        assert(nd[pos as int].0 == k);
                    }
                }
                assert forall|k: u32| #[trigger] docs_map(nd).contains_key(k) implies docs_map(nd)[k] == docs_map(old_docs).insert(doc_id, document)[k] by {
                    let j = choose|j: int| 0 <= j < nd.len() && #[trigger] nd[j].0 == k;
                    lemma_docs_at(nd, j);
                    if j < pos {
                        assert(old_docs[j] == nd[j]);
                        lemma_docs_at(old_docs, j);
                    } else if j > pos {
                        assert(old_docs[j - 1] == nd[j]);
                        lemma_docs_at(old_docs, j - 1);
                    }
                }
            }
        }
        Ok(())
    }

    pub fn finish(self) -> (r: StoredFieldsReader)
        requires
            self.wf(),
        ensures
            r.wf(),
            r.docs() == self.docs(),
    {
        StoredFieldsReader { documents: self.documents }
    }
}

/// Read access to the documents a [`StoredFieldsWriter`] collected.
#[derive(Debug, Clone, PartialEq, Eq, Default)]
pub struct StoredFieldsReader {
    documents: Vec<(u32, StoredDocument)>,
}

impl StoredFieldsReader {
    pub closed spec fn docs(&self) -> Map<u32, StoredDocument> {
        docs_map(self.documents@)
    }

    pub closed spec fn wf(&self) -> bool {
        docs_wf(self.documents@)
    }

    pub fn get(&self, doc_id: u32) -> (r: Option<&StoredDocument>)
        requires
            self.wf(),
        ensures
            match r {
                Some(d) => self.docs().contains_key(doc_id) && self.docs()[doc_id] == *d && d.wf(),
                None => !self.docs().contains_key(doc_id),
            },
    {
        let pos = lower_bound(&self.documents, doc_id);
        if pos < self.documents.len() && self.documents[pos].0 == doc_id {
            proof {
                lemma_docs_at(self.documents@, pos as int);
            }
            return Some(&self.documents[pos].1);
        }
        proof {
            if self.docs().contains_key(doc_id) {
                let j = choose|j: int| 0 <= j < self.documents@.len() && #[trigger] self.documents@[j].0 == doc_id;
                if j > pos {
                    assert(self.documents@[pos as int].0 < self.documents@[j].0);
                }
            }
        }
        None
    }

    /// The stored document ids in ascending order.
    pub fn doc_ids(&self) -> (r: Vec<u32>)
        requires
            self.wf(),
        ensures
            r@.to_set() == self.docs().dom(),
            forall|i: int, j: int| 0 <= i < j < r@.len() ==> r@[i] < r@[j],
    {
        let mut out: Vec<u32> = Vec::new();
        let mut i: usize = 0;
        while i < self.documents.len()
            invariant
                self.wf(),
                i <= self.documents@.len(),
                out@.len() == i,
                forall|k: int| 0 <= k < i ==> #[trigger] out@[k] == self.documents@[k].0,
            decreases self.documents.len() - i,
        {
            out.push(self.documents[i].0);
            i += 1;
        }
        proof {
            assert(out@.to_set() =~= self.docs().dom()) by {
                assert forall|k: u32| out@.to_set().contains(k) <==> self.docs().dom().contains(k) by {
                    if out@.to_set().contains(k) {
                        let j = choose|j: int| 0 <= j < out@.len() && out@[j] == k;
                        assert(self.documents@[j].0 == k);
                    }
                    if self.docs().dom().contains(k) {
                        let j = choose|j: int| 0 <= j < self.documents@.len() && #[trigger] self.documents@[j].0 == k;
                        assert(out@[j] == k);
                    }
                }
            }
            assert forall|a: int, b: int| 0 <= a < b < out@.len() implies out@[a] < out@[b] by {
                assert(self.documents@[a].0 < self.documents@[b].0);
            }
        }
        out
    }

    /// The stored documents with their ids, in ascending id order.
    pub fn iter(&self) -> (r: &[(u32, StoredDocument)])
        requires
            self.wf(),
        ensures
            forall|i: int, j: int| 0 <= i < j < r@.len() ==> r@[i].0 < r@[j].0,
            forall|i: int| #![trigger r@[i]]
                0 <= i < r@.len() ==> self.docs().contains_key(r@[i].0) && self.docs()[r@[i].0] == r@[i].1,
            forall|k: u32| #[trigger] self.docs().contains_key(k) ==> exists|i: int| 0 <= i < r@.len() && r@[i].0 == k,
    {
        proof {
            assert forall|i: int| #![trigger self.documents@[i]]
                0 <= i < self.documents@.len() implies self.docs().contains_key(self.documents@[i].0)
                    && self.docs()[self.documents@[i].0] == self.documents@[i].1 by {
                lemma_docs_at(self.documents@, i);
            }
            assert forall|k: u32| #[trigger] self.docs().contains_key(k) implies exists|i: int|
                0 <= i < self.documents@.len() && self.documents@[i].0 == k by {
                let j = choose|j: int| 0 <= j < self.documents@.len() && #[trigger] self.documents@[j].0 == k;
                assert(self.documents@[j].0 == k);
            }
        }
        self.documents.as_slice()
    }

    pub fn is_empty(&self) -> (r: bool)
        requires
            self.wf(),
        ensures
            r == (self.docs().dom().len() == 0),
    {
        proof {
            if self.documents@.len() > 0 {
                lemma_docs_at(self.documents@, 0);
                assert(self.docs().dom() =~= self.documents@.map_values(|e: (u32, StoredDocument)| e.0).to_set()) by {
                    let ks = self.documents@.map_values(|e: (u32, StoredDocument)| e.0);
                    assert forall|k: u32| ks.to_set().contains(k) <==> self.docs().dom().contains(k) by {
                        if ks.to_set().contains(k) {
                            let j = choose|j: int| 0 <= j < ks.len() && ks[j] == k;
                            assert(self.documents@[j].0 == k);
                        }
                        if self.docs().dom().contains(k) {
                            let j = choose|j: int| 0 <= j < self.documents@.len() && #[trigger] self.documents@[j].0 == k;
                            assert(ks[j] == k);
                        }
                    }
                }
            } else {
                assert(self.docs().dom() =~= Set::<u32>::empty());
            }
        }
        self.documents.len() == 0
    }
}

} // verus!
