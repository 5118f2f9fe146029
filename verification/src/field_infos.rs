//! Per-segment field metadata: one [`FieldInfo`] per indexed field, with
//! names and numbers unique inside a [`FieldInfos`] set.

use vstd::prelude::*;

use crate::text::str_eq;

verus! {

#[derive(Debug, Clone, PartialEq, Eq)]
pub enum FieldInfosError {
    DuplicateFieldName { name: String },
    DuplicateFieldNumber { number: u32 },
}

#[derive(Debug, Clone, Copy, PartialEq, Eq, Hash, Structural)]
pub enum IndexOptions {
    /// Not indexed (Lucene's `NONE`).
    Absent,
    Docs,
    DocsAndFreqs,
    DocsAndFreqsAndPositions,
    DocsAndFreqsAndPositionsAndOffsets,
}

#[derive(Debug, Clone, Copy, PartialEq, Eq, Hash, Structural)]
pub enum DocValuesType {
    /// No doc values (Lucene's `NONE`).
    Absent,
    Numeric,
    Binary,
    Sorted,
    SortedNumeric,
    SortedSet,
}

/// The abstract content of a [`FieldInfo`].
pub struct FieldInfoView {
    pub name: Seq<char>,
    pub number: u32,
    pub index_options: IndexOptions,
    pub doc_values_type: DocValuesType,
    pub omit_norms: bool,
    pub store_payloads: bool,
}

#[derive(Debug, PartialEq, Eq, Hash)]
pub struct FieldInfo {
    name: String,
    number: u32,
    index_options: IndexOptions,
    doc_values_type: DocValuesType,
    omit_norms: bool,
    store_payloads: bool,
}

impl View for FieldInfo {
    type V = FieldInfoView;

    closed spec fn view(&self) -> FieldInfoView {
        FieldInfoView {
            name: self.name@,
            number: self.number,
            index_options: self.index_options,
            doc_values_type: self.doc_values_type,
            omit_norms: self.omit_norms,
            store_payloads: self.store_payloads,
        }
    }
}

impl Clone for FieldInfo {
    fn clone(&self) -> (r: Self)
        ensures
            r == *self,
    {
        FieldInfo {
            name: self.name.clone(),
            number: self.number,
            index_options: self.index_options,
            doc_values_type: self.doc_values_type,
            omit_norms: self.omit_norms,
            store_payloads: self.store_payloads,
        }
    }
}

impl FieldInfo {
    pub fn new(
        name: &str,
        number: u32,
        index_options: IndexOptions,
        doc_values_type: DocValuesType,
        omit_norms: bool,
        store_payloads: bool,
    ) -> (r: Self)
        ensures
            r@ == (FieldInfoView {
                name: name@,
                number,
                index_options,
                doc_values_type,
                omit_norms,
                store_payloads,
            }),
    {
        FieldInfo {
            name: name.to_owned(),
            number,
            index_options,
            doc_values_type,
            omit_norms,
            store_payloads,
        }
    }

    pub fn name(&self) -> (r: &str)
        ensures
            r@ == self@.name,
    {
        self.name.as_str()
    }

    pub fn number(&self) -> (r: u32)
        ensures
            r == self@.number,
    {
        self.number
    }

    pub fn index_options(&self) -> (r: IndexOptions)
        ensures
            r == self@.index_options,
    {
        self.index_options
    }

    pub fn doc_values_type(&self) -> (r: DocValuesType)
        ensures
            r == self@.doc_values_type,
    {
        self.doc_values_type
    }

    pub fn omit_norms(&self) -> (r: bool)
        ensures
            r == self@.omit_norms,
    {
        self.omit_norms
    }

    pub fn store_payloads(&self) -> (r: bool)
        ensures
            r == self@.store_payloads,
    {
        self.store_payloads
    }
}

/// Field `p` reuses the name of an earlier field.
pub open spec fn name_clash(s: Seq<FieldInfoView>, p: int) -> bool {
    exists|q: int| 0 <= q < p && #[trigger] s[q].name == s[p].name
}

/// Field `p` reuses the number of an earlier field.
pub open spec fn number_clash(s: Seq<FieldInfoView>, p: int) -> bool {
    exists|q: int| 0 <= q < p && #[trigger] s[q].number == s[p].number
}

pub open spec fn clash(s: Seq<FieldInfoView>, p: int) -> bool {
    name_clash(s, p) || number_clash(s, p)
}

/// Names and numbers are each used by at most one field.
pub open spec fn fields_unique(s: Seq<FieldInfoView>) -> bool {
    forall|p: int, q: int|
        0 <= p < s.len() && 0 <= q < s.len() && p != q ==> #[trigger] s[p].name != #[trigger] s[q].name
            && s[p].number != s[q].number
}

/// The error `FieldInfos::new` reports for a clash at position `p`.
pub open spec fn clash_error(s: Seq<FieldInfoView>, p: int, e: FieldInfosError) -> bool {
    if name_clash(s, p) {
        e matches FieldInfosError::DuplicateFieldName { name } && name@ == s[p].name
    } else {
        e == FieldInfosError::DuplicateFieldNumber { number: s[p].number }
    }
}

/// What `FieldInfos::new` answers for fields with these contents: `None`
/// when it succeeds, otherwise the position whose clash it reports.
pub open spec fn first_clash(s: Seq<FieldInfoView>, p: int) -> bool {
    0 <= p < s.len() && clash(s, p) && forall|q: int| 0 <= q < p ==> !#[trigger] clash(s, q)
}

pub open spec fn no_clash(s: Seq<FieldInfoView>) -> bool {
    forall|p: int| 0 <= p < s.len() ==> !#[trigger] clash(s, p)
}

/// Fields whose names and numbers are unique never clash.
pub proof fn lemma_unique_no_clash(s: Seq<FieldInfoView>)
    requires
        fields_unique(s),
    ensures
        no_clash(s),
{
    assert forall|p: int| 0 <= p < s.len() implies !#[trigger] clash(s, p) by {
        if name_clash(s, p) {
            let q = choose|q: int| 0 <= q < p && #[trigger] s[q].name == s[p].name;
            assert(s[q].name != s[p].name);
        }
        if number_clash(s, p) {
            let q = choose|q: int| 0 <= q < p && #[trigger] s[q].number == s[p].number;
            assert(s[q].name != s[p].name);
        }
    }
}

pub open spec fn views(s: Seq<FieldInfo>) -> Seq<FieldInfoView> {
    s.map_values(|f: FieldInfo| f@)
}

#[derive(Debug, PartialEq, Eq)]
pub struct FieldInfos {
    fields: Vec<FieldInfo>,
}

impl View for FieldInfos {
    type V = Seq<FieldInfoView>;

    closed spec fn view(&self) -> Seq<FieldInfoView> {
        views(self.fields@)
    }
}

impl Clone for FieldInfos {
    fn clone(&self) -> (r: Self)
        ensures
            r@ == self@,
    {
        proof {
            use_type_invariant(self);
        }
        let fields = self.fields.clone();
        proof {
            assert(views(fields@) =~= views(self.fields@)) by {
                assert forall|i: int| 0 <= i < fields@.len() implies fields@[i] == self.fields@[i] by {
                    assert(vstd::pervasive::cloned(self.fields@[i], fields@[i]));
                }
            }
        }
        FieldInfos { fields }
    }
}

impl FieldInfos {
    #[verifier::type_invariant]
    closed spec fn inv(&self) -> bool {
        fields_unique(views(self.fields@))
    }

    /// Builds the set, rejecting the first field (in order) whose name or
    /// number was already used; a name clash is reported before a number
    /// clash at the same position.
    pub fn new(fields: Vec<FieldInfo>) -> (r: Result<Self, FieldInfosError>)
        ensures
            match r {
                Ok(infos) => infos@ == views(fields@) && no_clash(views(fields@)),
                Err(e) => exists|p: int|
                    first_clash(views(fields@), p) && #[trigger] clash_error(views(fields@), p, e),
            },
    {
        let ghost vs = views(fields@);
        let mut p: usize = 0;
        while p < fields.len()
            invariant
                p <= fields@.len(),
                vs == views(fields@),
                forall|q: int| 0 <= q < p ==> !#[trigger] clash(vs, q),
            decreases fields.len() - p,
        {
            let mut q: usize = 0;
            while q < p
                invariant
                    q <= p < fields@.len(),
                    vs == views(fields@),
                    forall|k: int| 0 <= k < p ==> !#[trigger] clash(vs, k),
                    forall|k: int| 0 <= k < q ==> vs[k].name != vs[p as int].name,
                decreases p - q,
            {
                if str_eq(fields[q].name.as_str(), fields[p].name.as_str()) {
                    assert(vs[q as int].name == vs[p as int].name);
                    assert(name_clash(vs, p as int));
                    let e = FieldInfosError::DuplicateFieldName { name: fields[p].name.clone() };
                    assert(clash_error(views(fields@), p as int, e));
                    assert(first_clash(views(fields@), p as int));
                    assert(clash(views(fields@), p as int));
                    return Err(e);
                }
                q += 1;
            }
            assert(!name_clash(vs, p as int));
            let mut q: usize = 0;
            while q < p
                invariant
                    q <= p < fields@.len(),
                    vs == views(fields@),
                    forall|k: int| 0 <= k < p ==> !#[trigger] clash(vs, k),
                    !name_clash(vs, p as int),
                    forall|k: int| 0 <= k < q ==> vs[k].number != vs[p as int].number,
                decreases p - q,
            {
                if fields[q].number == fields[p].number {
                    assert(vs[q as int].number == vs[p as int].number);
                    assert(number_clash(vs, p as int));
                    let e = FieldInfosError::DuplicateFieldNumber { number: fields[p].number };
                    assert(clash_error(views(fields@), p as int, e));
                    assert(first_clash(views(fields@), p as int));
                    assert(clash(views(fields@), p as int));
                    return Err(e);
                }
                q += 1;
            }
            assert(!clash(vs, p as int));
            p += 1;
        }
        proof {
            assert forall|a: int, b: int|
                0 <= a < vs.len() && 0 <= b < vs.len() && a != b implies #[trigger] vs[a].name
                != #[trigger] vs[b].name && vs[a].number != vs[b].number by {
                if a < b {
                    assert(!clash(vs, b));
                } else {
                    assert(!clash(vs, a));
                }
            }
        }
        Ok(FieldInfos { fields })
    }

    pub fn len(&self) -> (r: usize)
        ensures
            r == self@.len(),
    {
        self.fields.len()
    }

    pub fn is_empty(&self) -> (r: bool)
        ensures
            r == (self@.len() == 0),
    {
        self.fields.len() == 0
    }

    /// The fields in insertion order (the original exposes an iterator).
    pub fn iter(&self) -> (r: &[FieldInfo])
        ensures
            views(r@) == self@,
            fields_unique(self@),
    {
        proof {
            use_type_invariant(self);
        }
        self.fields.as_slice()
    }

    pub fn field_info(&self, name: &str) -> (r: Option<&FieldInfo>)
        ensures
            match r {
                Some(f) => exists|i: int|
                    0 <= i < self@.len() && self@[i] == f@ && f@.name == name@,
                None => forall|i: int| 0 <= i < self@.len() ==> #[trigger] self@[i].name != name@,
            },
    {
        let mut i: usize = 0;
        while i < self.fields.len()
            invariant
                i <= self.fields@.len(),
                forall|k: int| 0 <= k < i ==> #[trigger] views(self.fields@)[k].name != name@,
            decreases self.fields.len() - i,
        {
            if str_eq(self.fields[i].name.as_str(), name) {
                assert(views(self.fields@)[i as int] == self.fields@[i as int]@);
                return Some(&self.fields[i]);
            }
            i += 1;
        }
        None
    }

    pub fn field_info_by_number(&self, number: u32) -> (r: Option<&FieldInfo>)
        ensures
            match r {
                Some(f) => exists|i: int|
                    0 <= i < self@.len() && self@[i] == f@ && f@.number == number,
                None => forall|i: int| 0 <= i < self@.len() ==> #[trigger] self@[i].number != number,
            },
    {
        let mut i: usize = 0;
        while i < self.fields.len()
            invariant
                i <= self.fields@.len(),
                forall|k: int| 0 <= k < i ==> #[trigger] views(self.fields@)[k].number != number,
            decreases self.fields.len() - i,
        {
            if self.fields[i].number == number {
                assert(views(self.fields@)[i as int] == self.fields@[i as int]@);
                return Some(&self.fields[i]);
            }
            i += 1;
        }
        None
    }
}

} // verus!
