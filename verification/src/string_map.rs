//! A map from names to values, stored as a vector of entries ordered by
//! name; the crate's stand-in for `BTreeMap<String, V>`.

use vstd::prelude::*;

use crate::text::{compare_str, lex_lt, Order};

verus! {

pub closed spec fn has_name<V>(fields: Seq<(String, V)>, k: Seq<char>) -> bool {
    exists|i: int| 0 <= i < fields.len() && #[trigger] fields[i].0@ == k
}

pub closed spec fn name_index<V>(fields: Seq<(String, V)>, k: Seq<char>) -> int {
    choose|i: int| 0 <= i < fields.len() && #[trigger] fields[i].0@ == k
}

pub closed spec fn entries_map<V>(fields: Seq<(String, V)>) -> Map<Seq<char>, V> {
    Map::new(|k: Seq<char>| has_name(fields, k), |k: Seq<char>| fields[name_index(fields, k)].1)
}

pub open spec fn str_views(s: Seq<&str>) -> Seq<Seq<char>> {
    s.map_values(|x: &str| x@)
}

/// Names strictly increasing in `String` order.
pub open spec fn sorted_names(s: Seq<Seq<char>>) -> bool {
    forall|i: int, j: int| 0 <= i < j < s.len() ==> lex_lt(#[trigger] s[i], #[trigger] s[j])
}

/// A map from names to values, kept ordered by name (the order of
/// `String`), as a vector of entries.
#[derive(Debug, Clone, PartialEq, Eq, Hash)]
pub struct StringMap<V> {
    fields: Vec<(String, V)>,
}

impl<V> StringMap<V> {
    /// The names, in `String` order.
    pub closed spec fn names(&self) -> Seq<Seq<char>> {
        self.fields@.map_values(|e: (String, V)| e.0@)
    }

    /// The entries as a map from name to value.
    pub closed spec fn map(&self) -> Map<Seq<char>, V> {
        entries_map(self.fields@)
    }

    /// The entries, in name order.
    pub closed spec fn entry_seq(&self) -> Seq<(String, V)> {
        self.fields@
    }

    /// Well-formedness: names strictly ordered.
    pub closed spec fn wf(&self) -> bool {
        sorted_names(self.names())
    }

    proof fn lemma_map_at(&self, i: int)
        requires
            self.wf(),
            0 <= i < self.fields@.len(),
        ensures
            self.map().contains_key(self.fields@[i].0@),
            self.map()[self.fields@[i].0@] == self.fields@[i].1,
    {
        let k = self.fields@[i].0@;
        assert(self.names()[i] == k);
        assert(self.map().contains_key(k));
        let j = name_index(self.fields@, k);
        assert(0 <= j < self.fields@.len() && self.fields@[j].0@ == k);
        assert(self.names()[j] == k);
        if j != i {
            crate::text::lemma_lex_irreflexive(k);
            if i < j {
                assert(lex_lt(self.names()[i], self.names()[j]));
            } else {
                assert(lex_lt(self.names()[j], self.names()[i]));
            }
            assert(false);
        }
        assert(self.map()[k] == self.fields@[j].1);
    }

    /// The entries list the names in order, each with its value.
    pub proof fn lemma_entries(&self)
        requires
            self.wf(),
        ensures
            self.entry_seq().len() == self.names().len(),
            forall|i: int| 0 <= i < self.names().len() ==> (#[trigger] self.entry_seq()[i]).0@ == self.names()[i],
            forall|i: int|
                0 <= i < self.names().len() ==> self.map().contains_key(#[trigger] self.names()[i])
                    && self.map()[self.names()[i]] == self.entry_seq()[i].1,
            self.map().dom() == self.names().to_set(),
            sorted_names(self.names()),
    {
        assert forall|i: int| 0 <= i < self.names().len() implies self.map().contains_key(#[trigger] self.names()[i])
            && self.map()[self.names()[i]] == self.entry_seq()[i].1 by {
            self.lemma_map_at(i);
        }
        assert(self.map().dom() =~= self.names().to_set()) by {
            assert forall|k: Seq<char>| self.names().to_set().contains(k) <==> self.map().dom().contains(k) by {
                if self.names().to_set().contains(k) {
                    let j = choose|j: int| 0 <= j < self.names().len() && self.names()[j] == k;
                    assert(self.fields@[j].0@ == k);
                }
                if self.map().dom().contains(k) {
                    let j = choose|j: int| 0 <= j < self.fields@.len() && #[trigger] self.fields@[j].0@ == k;
                    assert(self.names()[j] == k);
                }
            }
        }
    }

    /// The entries, in name order, giving up the map.
    pub fn into_entries(self) -> (r: Vec<(String, V)>)
        ensures
            r@ == self.entry_seq(),
    {
        self.fields
    }

    /// The map holding entries already in strictly increasing name order.
    pub fn from_entries(entries: Vec<(String, V)>) -> (r: Self)
        requires
            sorted_names(entries@.map_values(|e: (String, V)| e.0@)),
        ensures
            r.wf(),
            r.entry_seq() == entries@,
    {
        StringMap { fields: entries }
    }

    pub fn new() -> (r: Self)
        ensures
            r.wf(),
            r.map() == Map::<Seq<char>, V>::empty(),
            r.names() == Seq::<Seq<char>>::empty(),
    {
        let r = StringMap { fields: Vec::new() };
        assert(r.map() =~= Map::<Seq<char>, V>::empty());
        assert(r.names() =~= Seq::<Seq<char>>::empty());
        r
    }

    /// Inserts `value` under `name`, replacing any previous value.
    pub fn insert(&mut self, name: &str, value: V)
        requires
            old(self).wf(),
        ensures
            final(self).wf(),
            final(self).map() == old(self).map().insert(name@, value),
            final(self).names().to_set() == old(self).names().to_set().insert(name@),
    {
        let ghost old_self = *self;
        let mut i: usize = 0;
        let mut found = false;
        while i < self.fields.len()
            invariant_except_break
                !found,
            invariant
                *self == old_self,
                self.wf(),
                i <= self.fields@.len(),
                forall|k: int| 0 <= k < i ==> lex_lt(#[trigger] self.names()[k], name@),
            ensures
                *self == old_self,
                self.wf(),
                i <= self.fields@.len(),
                forall|k: int| 0 <= k < i ==> lex_lt(#[trigger] self.names()[k], name@),
                found ==> i < self.fields@.len() && self.names()[i as int] == name@,
                !found ==> (i < self.fields@.len() ==> lex_lt(name@, self.names()[i as int])),
            decreases self.fields.len() - i,
        {
            match compare_str(self.fields[i].0.as_str(), name) {
                Order::Less => {
                    assert(self.names()[i as int] == self.fields@[i as int].0@);
                    i += 1;
                },
                Order::Equal => {
                    assert(self.names()[i as int] == self.fields@[i as int].0@);
                    found = true;
                    break;
                },
                Order::Greater => {
                    assert(self.names()[i as int] == self.fields@[i as int].0@);
                    break;
                },
            }
        }
        if found {
            let ghost old_fields = self.fields@;
            let ghost key = self.fields@[i as int].0;
            self.fields.set(i, (key_clone(&self.fields[i].0), value));
            proof {
                assert(self.names() =~= old_self.names());
                assert(self.wf());
                assert(self.map() =~= old_self.map().insert(name@, value)) by {
                    assert forall|k: Seq<char>| #[trigger] self.map().contains_key(k) <==> old_self.map().insert(name@, value).contains_key(k) by {
                        if old_self.map().contains_key(k) {
                            let j = choose|j: int| 0 <= j < old_fields.len() && #[trigger] old_fields[j].0@ == k;
                            assert(self.fields@[j].0@ == k);
                        }
                        if self.map().contains_key(k) {
                            let j = choose|j: int| 0 <= j < self.fields@.len() && #[trigger] self.fields@[j].0@ == k;
                            assert(old_fields[j].0@ == k);
                        }
                        if k == name@ {
                            assert(self.fields@[i as int].0@ == k);
                        }
                    }
                    assert forall|k: Seq<char>| #[trigger] self.map().contains_key(k) implies self.map()[k] == old_self.map().insert(name@, value)[k] by {
                        let j = choose|j: int| 0 <= j < self.fields@.len() && #[trigger] self.fields@[j].0@ == k;
                        self.lemma_map_at(j);
                        if j != i {
                            assert(old_fields[j] == self.fields@[j]);
                            old_self.lemma_map_at(j);
                            assert(old_self.names()[j] == k);
                            assert(old_self.names()[i as int] == name@);
                            crate::text::lemma_lex_irreflexive(k);
                            if j < i {
                                assert(lex_lt(old_self.names()[j], old_self.names()[i as int]));
                            } else {
                                assert(lex_lt(old_self.names()[i as int], old_self.names()[j]));
                            }
                            assert(k != name@);
                        } else {
                            assert(self.fields@[i as int].0@ == name@);
                        }
                    }
                }
            }
            proof {
                assert(self.names().to_set() =~= old_self.names().to_set().insert(name@)) by {
                    assert(old_self.names().to_set().contains(name@)) by {
                        assert(old_self.names()[i as int] == name@);
                    }
                }
            }
            return;
        }
        let ghost old_fields = self.fields@;
        let owned = name.to_owned();
        self.fields.insert(i, (owned, value));
        proof {
            let nf = self.fields@;
            assert(nf =~= old_fields.subrange(0, i as int).push((owned, value)) + old_fields.subrange(i as int, old_fields.len() as int));
            assert forall|k: int| i <= k < old_fields.len() implies lex_lt(name@, #[trigger] old_self.names()[k]) by {
                assert(old_self.names()[i as int] == old_fields[i as int].0@);
                if k > i {
                    assert(lex_lt(old_self.names()[i as int], old_self.names()[k]));
                    crate::text::lemma_lex_transitive(name@, old_self.names()[i as int], old_self.names()[k]);
                }
            }
            let on = old_self.names();
            let nn = self.names();
            assert(nn.len() == on.len() + 1);
            assert forall|k: int| 0 <= k < i implies #[trigger] nn[k] == on[k] by {
                assert(nf[k] == old_fields[k]);
            }
            assert(nn[i as int] == name@);
            assert forall|k: int| i < k < nn.len() implies #[trigger] nn[k] == on[k - 1] by {
                assert(nf[k] == old_fields[k - 1]);
            }
            assert forall|a: int, b: int| 0 <= a < b < nn.len() implies lex_lt(#[trigger] nn[a], #[trigger] nn[b]) by {
                if a < i && b == i {
                    assert(nn[a] == on[a]);
                } else if a < i && b > i {
                    assert(nn[a] == on[a]);
                    assert(nn[b] == on[b - 1]);
                    assert(lex_lt(on[a], name@));
                    assert(lex_lt(name@, on[b - 1]));
                    crate::text::lemma_lex_transitive(on[a], name@, on[b - 1]);
                } else if a == i {
                    assert(nn[b] == on[b - 1]);
                    assert(lex_lt(name@, on[b - 1]));
                } else if b < i {
                    assert(nn[a] == on[a]);
                    assert(nn[b] == on[b]);
                    assert(lex_lt(on[a], on[b]));
                } else {
                    assert(nn[a] == on[a - 1]);
                    assert(nn[b] == on[b - 1]);
                    assert(lex_lt(on[a - 1], on[b - 1]));
                }
            }
            assert(sorted_names(nn));
            assert(!old_self.map().contains_key(name@)) by {
                if old_self.map().contains_key(name@) {
                    let j = choose|j: int| 0 <= j < old_fields.len() && #[trigger] old_fields[j].0@ == name@;
                    assert(old_self.names()[j] == name@);
                    crate::text::lemma_lex_irreflexive(name@);
                }
            }
            assert(self.map() =~= old_self.map().insert(name@, value)) by {
                assert forall|k: Seq<char>| #[trigger] self.map().contains_key(k) <==> old_self.map().insert(name@, value).contains_key(k) by {
                    if old_self.map().contains_key(k) {
                        let j = choose|j: int| 0 <= j < old_fields.len() && #[trigger] old_fields[j].0@ == k;
                        if j < i {
                            assert(nf[j].0@ == k);
                        } else {
                            assert(nf[j + 1].0@ == k);
                        }
                    }
                    if self.map().contains_key(k) {
                        let j = choose|j: int| 0 <= j < nf.len() && #[trigger] nf[j].0@ == k;
                        if j < i {
                            assert(old_fields[j].0@ == k);
                        } else if j > i {
                            assert(old_fields[j - 1].0@ == k);
                        }
                    }
                    if k == name@ {
                        assert(nf[i as int].0@ == k);
                    }
                }
                assert forall|k: Seq<char>| #[trigger] self.map().contains_key(k) implies self.map()[k] == old_self.map().insert(name@, value)[k] by {
                    let j = choose|j: int| 0 <= j < nf.len() && #[trigger] nf[j].0@ == k;
                    self.lemma_map_at(j);
                    if j < i {
                        assert(old_fields[j] == nf[j]);
                        old_self.lemma_map_at(j);
                    } else if j > i {
                        assert(old_fields[j - 1] == nf[j]);
                        old_self.lemma_map_at(j - 1);
                    }
                }
            }
        }
        proof {
            let on = old_self.names();
            let nn = self.names();
            assert(nn.to_set() =~= on.to_set().insert(name@)) by {
                assert forall|k: Seq<char>| nn.to_set().contains(k) <==> on.to_set().insert(name@).contains(k) by {
                    if nn.to_set().contains(k) {
                        let j = choose|j: int| 0 <= j < nn.len() && nn[j] == k;
                        if j < i {
                            assert(on[j] == k);
                        } else if j > i {
                            assert(on[j - 1] == k);
                        }
                    }
                    if on.to_set().contains(k) {
                        let j = choose|j: int| 0 <= j < on.len() && on[j] == k;
                        if j < i {
                            assert(nn[j] == k);
                        } else {
                            assert(nn[j + 1] == k);
                        }
                    }
                    if k == name@ {
                        assert(nn[i as int] == k);
                    }
                }
            }
        }
    }

    pub fn get(&self, name: &str) -> (r: Option<&V>)
        requires
            self.wf(),
        ensures
            match r {
                Some(v) => self.map().contains_key(name@) && self.map()[name@] == *v,
                None => !self.map().contains_key(name@),
            },
    {
        let mut i: usize = 0;
        while i < self.fields.len()
            invariant
                self.wf(),
                i <= self.fields@.len(),
                forall|k: int| 0 <= k < i ==> #[trigger] self.fields@[k].0@ != name@,
            decreases self.fields.len() - i,
        {
            if crate::text::str_eq(self.fields[i].0.as_str(), name) {
                proof {
                    self.lemma_map_at(i as int);
                }
                return Some(&self.fields[i].1);
            }
            i += 1;
        }
        None
    }

    /// The names in `String` order.
    pub fn keys(&self) -> (r: Vec<&str>)
        requires
            self.wf(),
        ensures
            str_views(r@) == self.names(),
            sorted_names(self.names()),
            self.names().to_set() == self.map().dom(),
    {
        let mut out: Vec<&str> = Vec::new();
        let mut i: usize = 0;
        while i < self.fields.len()
            invariant
                i <= self.fields@.len(),
                out@.len() == i,
                str_views(out@) == self.names().subrange(0, i as int),
            decreases self.fields.len() - i,
        {
            let ghost before = out@;
            let name = self.fields[i].0.as_str();
            out.push(name);
            proof {
                assert(out@ == before.push(name));
                assert forall|k: int| 0 <= k <= i implies #[trigger] str_views(out@)[k] == self.names().subrange(0, i + 1)[k] by {
                    if k < i {
                        assert(out@[k] == before[k]);
                        assert(str_views(before)[k] == self.names().subrange(0, i as int)[k]);
                    }
                }
            }
            i += 1;
            assert(str_views(out@) =~= self.names().subrange(0, i as int));
        }
        proof {
            assert(self.names().subrange(0, i as int) =~= self.names());
            assert(self.names().to_set() =~= self.map().dom()) by {
                assert forall|k: Seq<char>| self.names().to_set().contains(k) <==> self.map().dom().contains(k) by {
                    if self.names().to_set().contains(k) {
                        let j = choose|j: int| 0 <= j < self.names().len() && self.names()[j] == k;
                        assert(self.fields@[j].0@ == k);
                    }
                    if self.map().dom().contains(k) {
                        let j = choose|j: int| 0 <= j < self.fields@.len() && #[trigger] self.fields@[j].0@ == k;
                        assert(self.names()[j] == k);
                    }
                }
            }
        }
        out
    }

    /// The `(name, value)` entries in name order.
    pub fn entries(&self) -> (r: &[(String, V)])
        requires
            self.wf(),
        ensures
            r@ == self.entry_seq(),
            r@.map_values(|e: (String, V)| e.0@) == self.names(),
            forall|i: int| 0 <= i < r@.len() ==> self.map()[#[trigger] r@[i].0@] == r@[i].1,
    {
        proof {
            assert forall|i: int| 0 <= i < self.fields@.len() implies self.map()[#[trigger] self.fields@[i].0@] == self.fields@[i].1 by {
                self.lemma_map_at(i);
            }
        }
        self.fields.as_slice()
    }

    /// Removes the entry of `name`, answering its value.
    pub fn remove(&mut self, name: &str) -> (r: Option<V>)
        requires
            old(self).wf(),
        ensures
            final(self).wf(),
            final(self).map() == old(self).map().remove(name@),
            match r {
                Some(v) => old(self).map().contains_key(name@) && old(self).map()[name@] == v,
                None => !old(self).map().contains_key(name@),
            },
    {
        let ghost old_self = *self;
        let mut i: usize = 0;
        while i < self.fields.len()
            invariant
                *self == old_self,
                self.wf(),
                i <= self.fields@.len(),
                forall|k: int| 0 <= k < i ==> #[trigger] self.fields@[k].0@ != name@,
            ensures
                *self == old_self,
                self.wf(),
                i <= self.fields@.len(),
                forall|k: int| 0 <= k < i ==> #[trigger] self.fields@[k].0@ != name@,
                i < self.fields@.len() ==> self.fields@[i as int].0@ == name@,
            decreases self.fields.len() - i,
        {
            if crate::text::str_eq(self.fields[i].0.as_str(), name) {
                break;
            }
            i += 1;
        }
        if i == self.fields.len() {
            proof {
                assert(!self.map().contains_key(name@)) by {
                    if self.map().contains_key(name@) {
                        let j = choose|j: int| 0 <= j < self.fields@.len() && #[trigger] self.fields@[j].0@ == name@;
                    }
                }
                assert(self.map().remove(name@) =~= self.map());
            }
            return None;
        }
        proof {
            old_self.lemma_map_at(i as int);
        }
        let ghost old_fields = self.fields@;
        let (_, v) = self.fields.remove(i);
        proof {
            let nf = self.fields@;
            assert(nf == old_fields.remove(i as int));
            assert(self.wf()) by {
                assert forall|a: int, b: int| 0 <= a < b < self.names().len() implies lex_lt(#[trigger] self.names()[a], #[trigger] self.names()[b]) by {
                    let oa = if a < i { a } else { a + 1 };
                    let ob = if b < i { b } else { b + 1 };
                    assert(self.names()[a] == old_self.names()[oa]);
                    assert(self.names()[b] == old_self.names()[ob]);
                }
            }
            assert(self.map() =~= old_self.map().remove(name@)) by {
                assert forall|k: Seq<char>| #[trigger] self.map().contains_key(k) <==> old_self.map().remove(name@).contains_key(k) by {
                    if old_self.map().contains_key(k) && k != name@ {
                        let j = choose|j: int| 0 <= j < old_fields.len() && #[trigger] old_fields[j].0@ == k;
                        if j < i {
                            assert(nf[j].0@ == k);
                        } else if j > i {
                            assert(nf[j - 1].0@ == k);
                        }
                    }
                    if self.map().contains_key(k) {
                        let j = choose|j: int| 0 <= j < nf.len() && #[trigger] nf[j].0@ == k;
                        let oj = if j < i { j } else { j + 1 };
                        assert(old_fields[oj].0@ == k);
                        assert(old_self.names()[oj] == k);
                        assert(old_self.names()[i as int] == name@);
                        if k == name@ {
                            crate::text::lemma_lex_irreflexive(k);
                            if oj < i {
                                assert(lex_lt(old_self.names()[oj], old_self.names()[i as int]));
                            } else {
                                assert(lex_lt(old_self.names()[i as int], old_self.names()[oj]));
                            }
                        }
                    }
                }
                assert forall|k: Seq<char>| #[trigger] self.map().contains_key(k) implies self.map()[k] == old_self.map().remove(name@)[k] by {
                    let j = choose|j: int| 0 <= j < nf.len() && #[trigger] nf[j].0@ == k;
                    self.lemma_map_at(j);
                    let oj = if j < i { j } else { j + 1 };
                    assert(old_fields[oj] == nf[j]);
                    old_self.lemma_map_at(oj);
                }
            }
        }
        Some(v)
    }

    /// Whether `name` has a value.
    pub fn contains(&self, name: &str) -> (r: bool)
        requires
            self.wf(),
        ensures
            r == self.map().contains_key(name@),
    {
        match self.get(name) {
            Some(_) => true,
            None => false,
        }
    }

    pub fn is_empty(&self) -> (r: bool)
        requires
            self.wf(),
        ensures
            r == (self.map().dom().len() == 0),
            r == (self.names().len() == 0),
    {
        proof {
            if self.fields@.len() > 0 {
                self.lemma_map_at(0);
                assert(self.map().dom().contains(self.fields@[0].0@));
                assert(self.map().dom().finite()) by {
                    assert(self.map().dom() =~= self.names().to_set()) by {
                        assert forall|k: Seq<char>| self.names().to_set().contains(k) <==> self.map().dom().contains(k) by {
                            if self.names().to_set().contains(k) {
                                let j = choose|j: int| 0 <= j < self.names().len() && self.names()[j] == k;
                                assert(self.fields@[j].0@ == k);
                            }
                            if self.map().dom().contains(k) {
                                let j = choose|j: int| 0 <= j < self.fields@.len() && #[trigger] self.fields@[j].0@ == k;
                                assert(self.names()[j] == k);
                            }
                        }
                    }
                }
            } else {
                assert(self.map().dom() =~= Set::<Seq<char>>::empty());
            }
        }
        self.fields.len() == 0
    }
}


fn key_clone(s: &String) -> (r: String)
    ensures
        r == *s,
{
    s.clone()
}

} // verus!
