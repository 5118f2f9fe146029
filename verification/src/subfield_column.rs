//! The stored values of one multi-field sub-field path, one optional value
//! per document id, each distinct value kept once and referred to by its
//! code.

use vstd::prelude::*;

use crate::string_map::StringMap;

verus! {

/// The code of a document with no value.
pub const ABSENT: u32 = u32::MAX;

/// `vals` grown with absent values to at least `n` entries.
pub open spec fn padded_values(vals: Seq<Option<Seq<char>>>, n: nat) -> Seq<Option<Seq<char>>> {
    if vals.len() >= n {
        vals
    } else {
        vals + Seq::new((n - vals.len()) as nat, |i: int| None::<Seq<char>>)
    }
}

/// The value of document `d`, none past the end.
pub open spec fn value_at(vals: Seq<Option<Seq<char>>>, d: int) -> Option<Seq<char>> {
    if 0 <= d < vals.len() {
        vals[d]
    } else {
        None
    }
}

/// The values after document `d` is given `v`: every document between the
/// old end and `d` has none.
pub open spec fn values_after_set(vals: Seq<Option<Seq<char>>>, d: nat, v: Seq<char>) -> Seq<Option<Seq<char>>> {
    padded_values(vals, d + 1).update(d as int, Some(v))
}

/// The `(doc_id, value)` pairs of the first `n` documents that have a
/// value, in ascending document order.
pub open spec fn present_values(vals: Seq<Option<Seq<char>>>, n: nat) -> Seq<(u32, Seq<char>)>
    decreases n,
{
    if n == 0 {
        Seq::empty()
    } else {
        let prev = present_values(vals, (n - 1) as nat);
        match vals[n - 1] {
            Some(v) => prev.push(((n - 1) as u32, v)),
            None => prev,
        }
    }
}

/// The byte length that `str::len` reports for a string.
pub open spec fn str_byte_len(v: Seq<char>) -> nat {
    (vstd::utf8::encode_utf8(v).len() as usize) as nat
}

/// The bytes of the first `n` dictionary values, each with a header of
/// `h` bytes.
pub open spec fn dict_bytes(dict: Seq<Seq<char>>, n: nat, h: nat) -> nat
    decreases n,
{
    if n == 0 {
        0
    } else {
        dict_bytes(dict, (n - 1) as nat, h) + h + str_byte_len(dict[n - 1])
    }
}

/// The bytes of the first `n` keys of the lookup from value to code: each
/// key with its header, the code and 16 bytes of table overhead.
pub open spec fn index_bytes(keys: Seq<Seq<char>>, n: nat, h: nat) -> nat
    decreases n,
{
    if n == 0 {
        0
    } else {
        index_bytes(keys, (n - 1) as nat, h) + h + 4 + 16 + str_byte_len(keys[n - 1])
    }
}

/// `v`, or `u64::MAX` above it.
pub open spec fn saturated(v: int) -> u64 {
    if v > u64::MAX {
        u64::MAX
    } else {
        v as u64
    }
}

/// The value of each document id that `codes` and `dict` give.
pub open spec fn column_values(codes: Seq<u32>, dict: Seq<String>) -> Seq<Option<Seq<char>>> {
    Seq::new(
        codes.len(),
        |i: int|
            if codes[i] == ABSENT {
                None
            } else {
                Some(dict[codes[i] as int]@)
            },
    )
}

/// One sub-field's values by document id. A document that never got a
/// value stays absent, which is not the same as an empty value.
#[derive(Debug, Clone)]
pub struct SubfieldColumn {
    dict: Vec<String>,
    codes: Vec<u32>,
    intern_index: StringMap<u32>,
}

impl SubfieldColumn {
    /// The distinct values, by code.
    pub closed spec fn dict_view(&self) -> Seq<Seq<char>> {
        self.dict@.map_values(|v: String| v@)
    }

    /// The value of each document id, none for a document without one.
    pub closed spec fn values(&self) -> Seq<Option<Seq<char>>> {
        column_values(self.codes@, self.dict@)
    }

    /// The code already given to each value, while the lookup is kept.
    pub closed spec fn index(&self) -> Map<Seq<char>, u32> {
        self.intern_index.map()
    }

    /// The values that the lookup holds.
    pub closed spec fn index_keys(&self) -> Seq<Seq<char>> {
        self.intern_index.names()
    }

    /// Every code in use names a dictionary value, and the lookup gives
    /// each value it holds the code of that value.
    pub closed spec fn wf(&self) -> bool {
        &&& self.intern_index.wf()
        &&& self.dict@.len() <= u32::MAX
        &&& self.codes@.len() <= u32::MAX + 1
        &&& forall|k: Seq<char>|
            #[trigger] self.intern_index.map().contains_key(k) ==> self.intern_index.map()[k] < self.dict@.len()
                && self.dict@[self.intern_index.map()[k] as int]@ == k
        &&& forall|i: int| 0 <= i < self.codes@.len() ==> #[trigger] self.codes@[i] == ABSENT || self.codes@[i] < self.dict@.len()
    }

    /// Gives document `doc_id` the value `value`, keeping one copy of each
    /// distinct value; documents between the old end and `doc_id` stay
    /// absent.
    pub fn set(&mut self, doc_id: u32, value: String)
        requires
            old(self).wf(),
            old(self).dict_view().len() < u32::MAX,
        ensures
            final(self).wf(),
            final(self).values() == values_after_set(old(self).values(), doc_id as nat, value@),
            final(self).dict_view().len() <= old(self).dict_view().len() + 1,
    {
        let ghost old_vals = self.values();
        let ghost v = value@;
        let code = self.intern(value);
        let ghost dict1 = self.dict@;
        let ghost codes0 = self.codes@;
        assert(self.values() == old_vals);
        let idx = doc_id as usize;
        while self.codes.len() <= idx
            invariant
                self.wf(),
                idx == doc_id,
                code < self.dict@.len(),
                self.dict@[code as int]@ == v,
                self.dict@ == dict1,
                old_vals == column_values(codes0, dict1),
                self.codes@ == codes0 + Seq::new((self.codes@.len() - codes0.len()) as nat, |i: int| ABSENT),
                self.codes@.len() >= codes0.len(),
                self.codes@.len() <= idx + 1 || self.codes@.len() == codes0.len(),
            decreases idx + 1 - self.codes.len(),
        {
            self.codes.push(ABSENT);
            assert(self.codes@ =~= codes0 + Seq::new((self.codes@.len() - codes0.len()) as nat, |i: int| ABSENT));
        }
        assert(self.values() =~= padded_values(old_vals, (doc_id + 1) as nat));
        self.codes.set(idx, code);
        assert(self.values() =~= values_after_set(old_vals, doc_id as nat, v));
    }

    /// The code of `value`: the one it already has when the lookup holds
    /// it, else a new code for a new dictionary entry.
    pub fn intern(&mut self, value: String) -> (r: u32)
        requires
            old(self).wf(),
            old(self).dict_view().len() < u32::MAX,
        ensures
            final(self).wf(),
            final(self).values() == old(self).values(),
            r < final(self).dict_view().len(),
            final(self).dict_view()[r as int] == value@,
            old(self).index().contains_key(value@) ==> r == old(self).index()[value@] && final(self).dict_view()
                == old(self).dict_view() && final(self).index() == old(self).index(),
            !old(self).index().contains_key(value@) ==> r == old(self).dict_view().len() && final(self).dict_view()
                == old(self).dict_view().push(value@) && final(self).index() == old(self).index().insert(
                value@,
                r,
            ),
    {
        let ghost old_self = *self;
        match self.intern_index.get(value.as_str()) {
            Some(code) => {
                let c = *code;
                proof {
                    assert(self.dict_view()[c as int] == self.dict@[c as int]@);
                }
                return c;
            },
            None => {},
        }
        let code = self.dict.len() as u32;
        self.intern_index.insert(value.as_str(), code);
        self.dict.push(value);
        proof {
            assert(self.values() =~= old_self.values());
            assert(self.dict_view() =~= old_self.dict_view().push(self.dict@[code as int]@));
            assert forall|k: Seq<char>| #[trigger] self.intern_index.map().contains_key(k) implies self.intern_index.map()[k]
                < self.dict@.len() && self.dict@[self.intern_index.map()[k] as int]@ == k by {
                if k != self.dict@[code as int]@ {
                    assert(old_self.intern_index.map().contains_key(k));
                }
            }
        }
        code
    }

    /// The value of `doc_id`, none when it has none or lies past the end.
    pub fn get(&self, doc_id: u32) -> (r: Option<&str>)
        requires
            self.wf(),
        ensures
            match r {
                Some(s) => value_at(self.values(), doc_id as int) == Some(s@),
                None => value_at(self.values(), doc_id as int) is None,
            },
    {
        let idx = doc_id as usize;
        if idx >= self.codes.len() {
            return None;
        }
        let code = self.codes[idx];
        if code == ABSENT {
            None
        } else {
            Some(self.dict[code as usize].as_str())
        }
    }

    /// The `(doc_id, value)` pairs of the documents that have a value, in
    /// ascending document order.
    pub fn iter(&self) -> (r: Vec<(u32, &str)>)
        requires
            self.wf(),
        ensures
            r@.map_values(|e: (u32, &str)| (e.0, e.1@)) == present_values(self.values(), self.values().len()),
    {
        let ghost vals = self.values();
        let mut out: Vec<(u32, &str)> = Vec::new();
        let mut i: usize = 0;
        while i < self.codes.len()
            invariant
                self.wf(),
                vals == self.values(),
                i <= self.codes@.len(),
                out@.map_values(|e: (u32, &str)| (e.0, e.1@)) == present_values(vals, i as nat),
            decreases self.codes.len() - i,
        {
            let code = self.codes[i];
            if code != ABSENT {
                out.push((i as u32, self.dict[code as usize].as_str()));
            }
            i += 1;
            assert(out@.map_values(|e: (u32, &str)| (e.0, e.1@)) =~= present_values(vals, i as nat));
        }
        out
    }

    /// Drops the lookup from value to code once no value will be added;
    /// the values stay as they are.
    pub fn finalize(&mut self)
        requires
            old(self).wf(),
        ensures
            final(self).wf(),
            final(self).values() == old(self).values(),
            final(self).dict_view() == old(self).dict_view(),
            final(self).index() == Map::<Seq<char>, u32>::empty(),
    {
        let ghost old_vals = self.values();
        self.intern_index = StringMap::new();
        assert(self.values() =~= old_vals);
    }

    /// The approximate heap bytes of the column: each distinct value with
    /// its `Box<str>` header, four bytes per document id, and each value of
    /// the lookup again with its header, its code and 16 bytes of table
    /// overhead; `u64::MAX` past it.
    pub fn memory_bytes(&self) -> (r: u64)
        requires
            self.wf(),
        ensures
            r == saturated(
                (dict_bytes(self.dict_view(), self.dict_view().len(), vstd::layout::size_of::<Box<str>>())
                    + self.values().len() * 4 + index_bytes(
                    self.index_keys(),
                    self.index_keys().len(),
                    vstd::layout::size_of::<Box<str>>(),
                )) as int,
            ),
    {
        broadcast use vstd::layout::layout_of_primitives;

        let header = std::mem::size_of::<Box<str>>() as u64;
        let ghost h = vstd::layout::size_of::<Box<str>>();
        let ghost dv = self.dict_view();
        let mut dict_total: u64 = 0;
        let mut i: usize = 0;
        while i < self.dict.len()
            invariant
                i <= self.dict@.len(),
                dv == self.dict_view(),
                header as nat == h,
                dict_total == saturated(dict_bytes(dv, i as nat, h) as int),
            decreases self.dict.len() - i,
        {
            let len = self.dict[i].as_str().len() as u64;
            assert(len == str_byte_len(dv[i as int]));
            dict_total = dict_total.saturating_add(header).saturating_add(len);
            i += 1;
        }
        let codes_total = (self.codes.len() as u64) * (std::mem::size_of::<u32>() as u64);
        let entries = self.intern_index.entries();
        let ghost keys = self.index_keys();
        let overhead = header.saturating_add(std::mem::size_of::<u32>() as u64).saturating_add(16);
        let mut index_total: u64 = 0;
        let mut j: usize = 0;
        while j < entries.len()
            invariant
                j <= entries@.len(),
                entries@.map_values(|e: (String, u32)| e.0@) == keys,
                header as nat == h,
                overhead == saturated((h + 4 + 16) as int),
                index_total == saturated(index_bytes(keys, j as nat, h) as int),
            decreases entries.len() - j,
        {
            let len = entries[j].0.as_str().len() as u64;
            assert(len == str_byte_len(keys[j as int]));
            index_total = index_total.saturating_add(overhead).saturating_add(len);
            j += 1;
        }
        assert(self.values().len() == self.codes@.len());
        dict_total.saturating_add(codes_total).saturating_add(index_total)
    }
}

impl Default for SubfieldColumn {
    fn default() -> (r: Self)
        ensures
            r.wf(),
            r.values() == Seq::<Option<Seq<char>>>::empty(),
            r.dict_view() == Seq::<Seq<char>>::empty(),
            r.index() == Map::<Seq<char>, u32>::empty(),
    {
        let r = SubfieldColumn { dict: Vec::new(), codes: Vec::new(), intern_index: StringMap::new() };
        assert(r.values() =~= Seq::<Option<Seq<char>>>::empty());
        assert(r.dict_view() =~= Seq::<Seq<char>>::empty());
        r
    }
}

/// After a document is given a value, reading it gives that value back;
/// every other document keeps its value, and one past the old end that
/// was not given a value has none.
pub proof fn law_set_then_get(vals: Seq<Option<Seq<char>>>, d: nat, v: Seq<char>, e: int)
    ensures
        value_at(values_after_set(vals, d, v), d as int) == Some(v),
        e != d ==> value_at(values_after_set(vals, d, v), e) == value_at(vals, e),
        values_after_set(vals, d, v).len() == if vals.len() > d {
            vals.len()
        } else {
            d + 1
        },
{
}

} // verus!
