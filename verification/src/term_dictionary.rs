//! The term dictionary built from the postings builder: per field, an FST
//! from each term to its ordinal and the term's postings laid out as flat
//! channels (doc ids, frequencies, block statistics) cut by offset tables.

use vstd::prelude::*;

use fst::{IntoStreamer, Streamer};

use crate::postings::{
    block_metas_spec, build_block_metas, bytes_lt, has_prefix, law_prefix_range, prefix_upper_bound, upper_bound_spec,
    BlockMeta, Posting, PostingsEnum, PostingsList, TermsEnum,
};
use crate::roaring::ascending;
use crate::roaring::RoaringDocSet;
use crate::string_map::{sorted_names, StringMap};
use crate::text::{lemma_lex_irreflexive, lemma_lex_total, lex_lt};
use crate::utf8_order::lemma_utf8_order;
use vstd::string::StringSliceAdditionalSpecFns;
use vstd::utf8::{decode_utf8, encode_utf8, valid_utf8};

verus! {

// ----- the FST map, trusted -----

#[verifier::external_type_specification]
#[verifier::external_body]
#[verifier::reject_recursive_types(D)]
pub struct ExFstMap<D>(fst::Map<D>);

#[verifier::external_type_specification]
#[verifier::external_body]
#[verifier::reject_recursive_types(W)]
pub struct ExFstMapBuilder<W>(fst::MapBuilder<W>);

/// The key-value pairs an FST map holds, in key order.
pub uninterp spec fn fst_map_entries(m: fst::Map<Vec<u8>>) -> Seq<(Seq<u8>, u64)>;

/// The key-value pairs inserted so far into an in-memory FST map builder,
/// in insertion order.
pub uninterp spec fn fst_builder_entries(b: fst::MapBuilder<Vec<u8>>) -> Seq<(Seq<u8>, u64)>;

/// The byte length of the serialized FST holding `entries`.
pub uninterp spec fn fst_encoded_len(entries: Seq<(Seq<u8>, u64)>) -> nat;

/// Whether `key` may follow the keys of `entries`: strictly above the
/// last one in byte order.
pub open spec fn key_follows(entries: Seq<(Seq<u8>, u64)>, key: Seq<u8>) -> bool {
    entries.len() == 0 || bytes_lt(entries.last().0, key)
}

/// `entries` has an entry with key `key`.
pub open spec fn holds_key(entries: Seq<(Seq<u8>, u64)>, key: Seq<u8>) -> bool {
    exists|i: int| 0 <= i < entries.len() && #[trigger] entries[i].0 == key
}

/// `entries` has the entry `key` with `value`.
pub open spec fn holds_entry(entries: Seq<(Seq<u8>, u64)>, key: Seq<u8>, value: u64) -> bool {
    exists|i: int| 0 <= i < entries.len() && #[trigger] entries[i].0 == key && entries[i].1 == value
}

/// An empty in-memory map builder.
///
/// Trusted: calls `fst::MapBuilder::memory`, whose builder writes to a
/// `Vec` and starts with no key.
#[verifier::external_body]
fn fst_builder_memory() -> (r: fst::MapBuilder<Vec<u8>>)
    ensures
        fst_builder_entries(r) == Seq::<(Seq<u8>, u64)>::empty(),
{
    fst::MapBuilder::memory()
}

/// Adds `key` with `value`; true when it was added.
///
/// Trusted: calls `fst::MapBuilder::insert`, which refuses (and leaves the
/// builder as it was) a key that is not strictly above every key added
/// before, and otherwise adds it; writing to the builder's `Vec` cannot
/// fail.
#[verifier::external_body]
fn fst_builder_insert(b: &mut fst::MapBuilder<Vec<u8>>, key: &[u8], value: u64) -> (r: bool)
    ensures
        r == key_follows(fst_builder_entries(*old(b)), key@),
        r ==> fst_builder_entries(*final(b)) == fst_builder_entries(*old(b)).push((key@, value)),
        !r ==> fst_builder_entries(*final(b)) == fst_builder_entries(*old(b)),
{
    b.insert(key, value).is_ok()
}

/// The map the builder's keys and values make.
///
/// Trusted: calls `fst::MapBuilder::into_map`, which finishes the
/// in-memory FST and reads it back as a map holding what was inserted.
#[verifier::external_body]
fn fst_builder_into_map(b: fst::MapBuilder<Vec<u8>>) -> (r: fst::Map<Vec<u8>>)
    ensures
        fst_map_entries(r) == fst_builder_entries(b),
{
    b.into_map()
}

/// The value of `key`.
///
/// Trusted: calls `fst::Map::get`, which gives the value stored with the
/// key, none for a key the map does not hold.
#[verifier::external_body]
fn fst_map_get(m: &fst::Map<Vec<u8>>, key: &[u8]) -> (r: Option<u64>)
    ensures
        r is Some <==> holds_key(fst_map_entries(*m), key@),
        r matches Some(v) ==> holds_entry(fst_map_entries(*m), key@, v),
{
    m.get(key)
}

/// The entries whose key is at or past `lo`, in key order.
///
/// Trusted: calls `fst::Map::range` bounded below by `ge(lo)` and streams
/// it into a vector of owned keys and values.
#[verifier::external_body]
fn fst_map_range_from(m: &fst::Map<Vec<u8>>, lo: &[u8]) -> (r: Vec<(Vec<u8>, u64)>)
    ensures
        r@.map_values(|e: (Vec<u8>, u64)| (e.0@, e.1)) == fst_map_entries(*m).filter(
            |e: (Seq<u8>, u64)| !bytes_lt(e.0, lo@),
        ),
{
    m.range().ge(lo).into_stream().into_byte_vec()
}

/// The entries whose key is at or past `lo` and before `hi`, in key order.
///
/// Trusted: calls `fst::Map::range` bounded by `ge(lo)` and `lt(hi)` and
/// streams it into a vector of owned keys and values.
#[verifier::external_body]
fn fst_map_range_between(m: &fst::Map<Vec<u8>>, lo: &[u8], hi: &[u8]) -> (r: Vec<(Vec<u8>, u64)>)
    ensures
        r@.map_values(|e: (Vec<u8>, u64)| (e.0@, e.1)) == fst_map_entries(*m).filter(
            |e: (Seq<u8>, u64)| !bytes_lt(e.0, lo@) && bytes_lt(e.0, hi@),
        ),
{
    m.range().ge(lo).lt(hi).into_stream().into_byte_vec()
}

/// All the entries, in key order.
///
/// Trusted: calls `fst::Map::stream` and collects it into a vector of
/// owned keys and values.
#[verifier::external_body]
fn fst_map_stream(m: &fst::Map<Vec<u8>>) -> (r: Vec<(Vec<u8>, u64)>)
    ensures
        r@.map_values(|e: (Vec<u8>, u64)| (e.0@, e.1)) == fst_map_entries(*m),
{
    m.stream().into_byte_vec()
}

/// The string that `bytes` spell.
///
/// Trusted: calls `String::from_utf8_lossy`, which std documents as giving
/// back the string of valid UTF-8 unchanged (and replacing invalid
/// sequences, a case left unstated here).
#[verifier::external_body]
fn utf8_lossy(bytes: &[u8]) -> (r: String)
    ensures
        valid_utf8(bytes@) ==> r@ == decode_utf8(bytes@),
{
    String::from_utf8_lossy(bytes).into_owned()
}

/// `items` is the union of the key sets of `sources`: keys strictly
/// increasing, each key with the (source index, value) of sources that
/// hold it (at least one, every such source listed), and every key of
/// every source present.
pub open spec fn is_union_of(items: Seq<(Seq<u8>, Seq<(usize, u64)>)>, sources: Seq<Seq<(Seq<u8>, u64)>>) -> bool {
    &&& forall|x: int, y: int| 0 <= x < y < items.len() ==> bytes_lt(#[trigger] items[x].0, #[trigger] items[y].0)
    &&& forall|x: int| 0 <= x < items.len() ==> (#[trigger] items[x]).1.len() > 0
    &&& forall|x: int, q: int|
        0 <= x < items.len() && 0 <= q < items[x].1.len() ==> (#[trigger] items[x].1[q]).0 < sources.len()
            && holds_entry(sources[items[x].1[q].0 as int], items[x].0, items[x].1[q].1)
    &&& forall|x: int, j: int|
        0 <= x < items.len() && 0 <= j < sources.len() && #[trigger] holds_key(sources[j], items[x].0)
            ==> exists|q: int| 0 <= q < items[x].1.len() && items[x].1[q].0 == j
    &&& forall|j: int, i: int|
        0 <= j < sources.len() && 0 <= i < sources[j].len() ==> exists|x: int|
            0 <= x < items.len() && #[trigger] items[x].0 == (#[trigger] sources[j][i]).0
}

/// The union of the maps' keys, in key order.
///
/// Trusted: calls `fst::map::OpBuilder::add` for each map, in order, and
/// streams `union`, which yields every key of any map once, in increasing
/// order, with the index (the order of addition) and value of each map
/// holding it.
#[verifier::external_body]
fn fst_union(maps: &[&fst::Map<Vec<u8>>]) -> (r: Vec<(Vec<u8>, Vec<(usize, u64)>)>)
    ensures
        is_union_of(
            r@.map_values(|e: (Vec<u8>, Vec<(usize, u64)>)| (e.0@, e.1@)),
            maps@.map_values(|m: &fst::Map<Vec<u8>>| fst_map_entries(*m)),
        ),
{
    let mut op = fst::map::OpBuilder::new();
    for m in maps.iter() {
        op = op.add(*m);
    }
    let mut union = op.union();
    let mut out = Vec::new();
    while let Some((key, values)) = union.next() {
        out.push((key.to_vec(), values.iter().map(|v| (v.index, v.value)).collect()));
    }
    out
}

/// The byte length of the serialized FST.
///
/// Trusted: calls `fst::raw::Fst::as_bytes` on the map's FST and takes
/// the length; the maps here all come from the in-memory builder, whose
/// output for a given run of entries is always the same, so the length is
/// named as a function of the entries.
#[verifier::external_body]
fn fst_map_byte_len(m: &fst::Map<Vec<u8>>) -> (r: usize)
    ensures
        r == fst_encoded_len(fst_map_entries(*m)),
{
    m.as_fst().as_bytes().len()
}

// ----- merging the postings of one term -----

/// The frequencies of the postings of `d` among the first `n` of `ps`,
/// summed.
pub open spec fn freq_total(ps: Seq<Posting>, n: nat, d: u32) -> int
    decreases n,
{
    if n == 0 {
        0
    } else {
        freq_total(ps, (n - 1) as nat, d) + if ps[n - 1].doc_id == d {
            ps[n - 1].freq as int
        } else {
            0
        }
    }
}

/// The merged frequency of `d` in `ps`: the sum, `u32::MAX` past it.
pub open spec fn merged_freq(ps: Seq<Posting>, d: u32) -> u32 {
    if freq_total(ps, ps.len(), d) > u32::MAX {
        u32::MAX
    } else {
        freq_total(ps, ps.len(), d) as u32
    }
}

/// Doc ids strictly ascending.
pub open spec fn doc_ids_ascending(ps: Seq<Posting>) -> bool {
    forall|i: int, j: int| 0 <= i < j < ps.len() ==> (#[trigger] ps[i]).doc_id < (#[trigger] ps[j]).doc_id
}

/// `ps` has a posting of `d`.
pub open spec fn has_doc(ps: Seq<Posting>, d: u32) -> bool {
    exists|i: int| 0 <= i < ps.len() && (#[trigger] ps[i]).doc_id == d
}

/// `out` is `ps` merged: one posting per doc id of `ps`, in ascending doc
/// id order, with the doc id's merged frequency.
pub open spec fn merges(out: Seq<Posting>, ps: Seq<Posting>) -> bool {
    &&& doc_ids_ascending(out)
    &&& forall|d: u32| #[trigger] has_doc(out, d) <==> has_doc(ps, d)
    &&& forall|i: int| 0 <= i < out.len() ==> (#[trigger] out[i]).freq == merged_freq(ps, out[i].doc_id)
}

/// The postings of one term sorted by doc id with the postings of one doc
/// id merged into one, frequencies added with saturation.
pub fn merge_term_postings(ps: &[Posting]) -> (r: Vec<Posting>)
    ensures
        merges(r@, ps@),
        r@.len() <= ps@.len(),
{
    let mut out: Vec<Posting> = Vec::new();
    let mut n: usize = 0;
    while n < ps.len()
        invariant
            n <= ps@.len(),
            out@.len() <= n,
            doc_ids_ascending(out@),
            forall|d: u32| #[trigger] has_doc(out@, d) <==> has_doc(ps@.subrange(0, n as int), d),
            forall|i: int|
                0 <= i < out@.len() ==> (#[trigger] out@[i]).freq == merged_freq(
                    ps@.subrange(0, n as int),
                    out@[i].doc_id,
                ),
        decreases ps.len() - n,
    {
        let p = ps[n];
        let ghost before = out@;
        let ghost prefix = ps@.subrange(0, n as int);
        let ghost next = ps@.subrange(0, n + 1);
        proof {
            assert(next.subrange(0, n as int) =~= prefix);
            assert forall|d: u32| freq_total(next, next.len(), d) == freq_total(prefix, prefix.len(), d) + if p.doc_id
                == d {
                p.freq as int
            } else {
                0
            } by {
                lemma_freq_total_prefix(next, n as nat, d);
                lemma_freq_total_agree(next, prefix, n as nat, d);
            }
            assert forall|d: u32| has_doc(next, d) <==> has_doc(prefix, d) || p.doc_id == d by {
                if has_doc(next, d) {
                    let j = choose|j: int| 0 <= j < next.len() && (#[trigger] next[j]).doc_id == d;
                    if j < n {
                        assert(prefix[j] == next[j]);
                    }
                }
                if has_doc(prefix, d) {
                    let j = choose|j: int| 0 <= j < prefix.len() && (#[trigger] prefix[j]).doc_id == d;
                    assert(next[j] == prefix[j]);
                }
                if p.doc_id == d {
                    assert(next[n as int] == p);
                }
            }
        }
        // the first posting at or past p's doc id
        let mut k: usize = out.len();
        while k > 0 && out[k - 1].doc_id >= p.doc_id
            invariant
                k <= out@.len(),
                out@ == before,
                forall|i: int| k <= i < out@.len() ==> (#[trigger] out@[i]).doc_id >= p.doc_id,
            decreases k,
        {
            k -= 1;
        }
        if k < out.len() && out[k].doc_id == p.doc_id {
            let old_p = out[k];
            out.set(k, Posting { doc_id: p.doc_id, freq: old_p.freq.saturating_add(p.freq) });
            proof {
                assert forall|d: u32| #[trigger] has_doc(out@, d) <==> has_doc(before, d) by {
                    if has_doc(out@, d) {
                        let j = choose|j: int| 0 <= j < out@.len() && (#[trigger] out@[j]).doc_id == d;
                        assert(before[j].doc_id == d);
                    }
                    if has_doc(before, d) {
                        let j = choose|j: int| 0 <= j < before.len() && (#[trigger] before[j]).doc_id == d;
                        assert(out@[j].doc_id == d);
                    }
                }
                assert forall|i: int| 0 <= i < out@.len() implies (#[trigger] out@[i]).freq == merged_freq(
                    next,
                    out@[i].doc_id,
                ) by {
                    let d = out@[i].doc_id;
                    assert(freq_total(next, next.len(), d) == freq_total(prefix, prefix.len(), d) + if p.doc_id == d {
                        p.freq as int
                    } else {
                        0
                    });
                    if i != k {
                        assert(out@[i] == before[i]);
                        if i < k {
                            assert(before[i].doc_id < before[k as int].doc_id);
                        } else {
                            assert(before[k as int].doc_id < before[i].doc_id);
                        }
                        assert(before[i].freq == merged_freq(prefix, d));
                        assert(merged_freq(prefix, d) == merged_freq(next, d));
                    } else {
                        assert(old_p == before[k as int]);
                        assert(old_p.freq == merged_freq(prefix, p.doc_id));
                        lemma_freq_total_nonneg(prefix, prefix.len(), d);
                    }
                }
            }
        } else {
            out.insert(k, p);
            proof {
                assert(!has_doc(before, p.doc_id)) by {
                    if has_doc(before, p.doc_id) {
                        let j = choose|j: int| 0 <= j < before.len() && (#[trigger] before[j]).doc_id == p.doc_id;
                        if j < k {
                            assert(before[j].doc_id < before[k - 1].doc_id || j == k - 1);
                        }
                    }
                }
                assert(freq_total(prefix, prefix.len(), p.doc_id) == 0) by {
                    lemma_freq_total_absent(prefix, prefix.len(), p.doc_id);
                }
                assert forall|d: u32| #[trigger] has_doc(out@, d) <==> (has_doc(before, d) || p.doc_id == d) by {
                    if has_doc(out@, d) {
                        let j = choose|j: int| 0 <= j < out@.len() && (#[trigger] out@[j]).doc_id == d;
                        if j < k {
                            assert(before[j] == out@[j]);
                        } else if j > k {
                            assert(before[j - 1] == out@[j]);
                        }
                    }
                    if has_doc(before, d) {
                        let j = choose|j: int| 0 <= j < before.len() && (#[trigger] before[j]).doc_id == d;
                        if j < k {
                            assert(out@[j] == before[j]);
                        } else {
                            assert(out@[j + 1] == before[j]);
                        }
                    }
                    if p.doc_id == d {
                        assert(out@[k as int] == p);
                    }
                }
                assert forall|i: int, j: int| 0 <= i < j < out@.len() implies (#[trigger] out@[i]).doc_id
                    < (#[trigger] out@[j]).doc_id by {
                    if j < k {
                        assert(out@[i] == before[i] && out@[j] == before[j]);
                    } else if j == k {
                        assert(out@[i] == before[i]);
                    } else if i == k {
                        assert(out@[j] == before[j - 1]);
                    } else if i < k {
                        assert(out@[i] == before[i] && out@[j] == before[j - 1]);
                    } else {
                        assert(out@[i] == before[i - 1] && out@[j] == before[j - 1]);
                    }
                }
                assert forall|i: int| 0 <= i < out@.len() implies (#[trigger] out@[i]).freq == merged_freq(
                    next,
                    out@[i].doc_id,
                ) by {
                    if i < k {
                        assert(out@[i] == before[i]);
                    } else if i > k {
                        assert(out@[i] == before[i - 1]);
                    }
                }
            }
        }
        n += 1;
    }
    proof {
        assert(ps@.subrange(0, n as int) =~= ps@);
    }
    out
}

proof fn lemma_freq_total_prefix(ps: Seq<Posting>, n: nat, d: u32)
    requires
        n < ps.len(),
    ensures
        freq_total(ps, n + 1, d) == freq_total(ps, n, d) + if ps[n as int].doc_id == d {
            ps[n as int].freq as int
        } else {
            0
        },
{
}

pub(crate) proof fn lemma_freq_total_agree(a: Seq<Posting>, b: Seq<Posting>, n: nat, d: u32)
    requires
        n <= a.len(),
        n <= b.len(),
        forall|j: int| 0 <= j < n ==> a[j] == b[j],
    ensures
        freq_total(a, n, d) == freq_total(b, n, d),
    decreases n,
{
    if n > 0 {
        lemma_freq_total_agree(a, b, (n - 1) as nat, d);
    }
}

pub(crate) proof fn lemma_freq_total_nonneg(ps: Seq<Posting>, n: nat, d: u32)
    requires
        n <= ps.len(),
    ensures
        freq_total(ps, n, d) >= 0,
    decreases n,
{
    if n > 0 {
        lemma_freq_total_nonneg(ps, (n - 1) as nat, d);
    }
}

pub(crate) proof fn lemma_freq_total_absent(ps: Seq<Posting>, n: nat, d: u32)
    requires
        n <= ps.len(),
        forall|j: int| 0 <= j < n ==> (#[trigger] ps[j]).doc_id != d,
    ensures
        freq_total(ps, n, d) == 0,
    decreases n,
{
    if n > 0 {
        lemma_freq_total_absent(ps, (n - 1) as nat, d);
    }
}


// ----- byte order of encoded terms -----

proof fn lemma_bytes_lt_irreflexive(a: Seq<u8>)
    ensures
        !bytes_lt(a, a),
    decreases a.len(),
{
    if a.len() > 0 {
        lemma_bytes_lt_irreflexive(a.drop_first());
    }
}

proof fn lemma_bytes_lt_asymmetric(a: Seq<u8>, b: Seq<u8>)
    ensures
        !(bytes_lt(a, b) && bytes_lt(b, a)),
    decreases a.len(),
{
    if a.len() > 0 && b.len() > 0 && a[0] == b[0] {
        lemma_bytes_lt_asymmetric(a.drop_first(), b.drop_first());
    }
}

proof fn lemma_bytes_lt_transitive(a: Seq<u8>, b: Seq<u8>, c: Seq<u8>)
    requires
        bytes_lt(a, b),
        bytes_lt(b, c),
    ensures
        bytes_lt(a, c),
    decreases a.len(),
{
    if a.len() > 0 && b.len() > 0 && c.len() > 0 && a[0] == b[0] && b[0] == c[0] {
        lemma_bytes_lt_transitive(a.drop_first(), b.drop_first(), c.drop_first());
    }
}

proof fn lemma_bytes_lt_total(a: Seq<u8>, b: Seq<u8>)
    ensures
        bytes_lt(a, b) || bytes_lt(b, a) || a == b,
    decreases a.len(),
{
    if a.len() > 0 && b.len() > 0 {
        if a[0] == b[0] {
            lemma_bytes_lt_total(a.drop_first(), b.drop_first());
            if a.drop_first() == b.drop_first() {
                assert(a =~= seq![a[0]] + a.drop_first());
                assert(b =~= seq![b[0]] + b.drop_first());
            }
        }
    } else if a.len() == 0 && b.len() == 0 {
        assert(a =~= b);
    }
}

/// Strings whose UTF-8 encodings are in byte order are in code-point
/// order.
proof fn lemma_lex_from_bytes(a: Seq<char>, b: Seq<char>)
    requires
        bytes_lt(encode_utf8(a), encode_utf8(b)),
    ensures
        lex_lt(a, b),
{
    lemma_lex_total(a, b);
    lemma_bytes_lt_irreflexive(encode_utf8(a));
    if lex_lt(b, a) {
        lemma_utf8_order(b, a);
        lemma_bytes_lt_asymmetric(encode_utf8(a), encode_utf8(b));
    }
}

/// Distinct strings have distinct UTF-8 encodings.
proof fn lemma_encode_injective(a: Seq<char>, b: Seq<char>)
    requires
        encode_utf8(a) == encode_utf8(b),
    ensures
        a == b,
{
    lemma_lex_total(a, b);
    lemma_bytes_lt_irreflexive(encode_utf8(a));
    if lex_lt(a, b) {
        lemma_utf8_order(a, b);
    } else if lex_lt(b, a) {
        lemma_utf8_order(b, a);
    }
}

// ----- one field's postings -----

/// Terms with more postings than this also get a roaring set.
pub const TERM_ROARING_THRESHOLD: usize = 4096;

/// The doc ids of `ps`.
pub open spec fn doc_ids_of(ps: Seq<Posting>) -> Seq<u32> {
    ps.map_values(|p: Posting| p.doc_id)
}

/// The frequencies of `ps`.
pub open spec fn freqs_of(ps: Seq<Posting>) -> Seq<u32> {
    ps.map_values(|p: Posting| p.freq)
}

/// The FST entries of `terms`: each term's UTF-8 bytes with its ordinal.
pub open spec fn term_entries(terms: Seq<Seq<char>>) -> Seq<(Seq<u8>, u64)> {
    Seq::new(terms.len(), |i: int| (encode_utf8(terms[i]), i as u64))
}

/// The summed lengths of the first `n` lists of `entries`.
pub open spec fn list_total<K>(entries: Seq<(K, Vec<Posting>)>, n: nat) -> nat
    decreases n,
{
    if n == 0 {
        0
    } else {
        list_total(entries, (n - 1) as nat) + entries[n - 1].1@.len()
    }
}

/// The postings of one field: an FST from each term to its ordinal, and
/// per ordinal the term's doc ids, frequencies and block statistics as
/// ranges of flat channels, with a roaring set for frequent terms.
pub struct FieldPostings {
    fst: fst::Map<Vec<u8>>,
    doc_ids_flat: Vec<u32>,
    freqs_flat: Vec<u32>,
    postings_counts: Vec<u32>,
    block_metas_flat: Vec<BlockMeta>,
    offsets: Vec<u32>,
    block_offsets: Vec<u32>,
    roaring: Vec<(u32, RoaringDocSet)>,
    terms: Ghost<Seq<Seq<char>>>,
    lists: Ghost<Seq<Seq<Posting>>>,
}

impl FieldPostings {
    /// The terms, in order.
    pub closed spec fn term_seq(&self) -> Seq<Seq<char>> {
        self.terms@
    }

    /// The postings of each term, by ordinal.
    pub closed spec fn list_seq(&self) -> Seq<Seq<Posting>> {
        self.lists@
    }

    /// The channels hold, for each ordinal, the term's postings and block
    /// statistics, between consecutive offsets; the FST maps each term's
    /// bytes to its ordinal; frequent terms have their roaring set.
    pub closed spec fn wf(&self) -> bool {
        let t = self.terms@;
        let l = self.lists@;
        let n = t.len();
        &&& sorted_names(t)
        &&& l.len() == n
        &&& n <= u32::MAX
        &&& fst_map_entries(self.fst) == term_entries(t)
        &&& self.offsets@.len() == n + 1
        &&& self.offsets@[0] == 0
        &&& self.offsets@[n as int] == self.doc_ids_flat@.len()
        &&& self.freqs_flat@.len() == self.doc_ids_flat@.len()
        &&& self.block_offsets@.len() == n + 1
        &&& self.block_offsets@[0] == 0
        &&& self.block_offsets@[n as int] == self.block_metas_flat@.len()
        &&& self.postings_counts@.len() == n
        &&& forall|a: int, b: int|
            #![trigger self.offsets@[a], self.offsets@[b]]
            0 <= a <= b <= n ==> self.offsets@[a] <= self.offsets@[b]
        &&& forall|a: int, b: int|
            #![trigger self.block_offsets@[a], self.block_offsets@[b]]
            0 <= a <= b <= n ==> self.block_offsets@[a] <= self.block_offsets@[b]
        &&& forall|i: int|
            0 <= i < n ==> #[trigger] self.doc_ids_flat@.subrange(self.offsets@[i] as int, self.offsets@[i + 1] as int)
                == doc_ids_of(l[i])
        &&& forall|i: int|
            0 <= i < n ==> #[trigger] self.freqs_flat@.subrange(self.offsets@[i] as int, self.offsets@[i + 1] as int)
                == freqs_of(l[i])
        &&& forall|i: int|
            0 <= i < n ==> (#[trigger] self.block_metas_flat@.subrange(
                self.block_offsets@[i] as int,
                self.block_offsets@[i + 1] as int,
            )).map_values(|b: BlockMeta| b.max_term_freq) == block_metas_spec(l[i])
        &&& forall|i: int| 0 <= i < n ==> #[trigger] self.postings_counts@[i] == l[i].len()
        &&& forall|i: int| 0 <= i < n ==> doc_ids_ascending(#[trigger] l[i])
        &&& forall|r: int|
            0 <= r < self.roaring@.len() ==> {
                let (i, set) = #[trigger] self.roaring@[r];
                &&& i < n
                &&& l[i as int].len() > TERM_ROARING_THRESHOLD
                &&& set@ == doc_ids_of(l[i as int])
            }
        &&& forall|a: int, b: int| 0 <= a < b < self.roaring@.len() ==> (#[trigger] self.roaring@[a]).0 < (#[trigger] self.roaring@[b]).0
        &&& forall|i: int|
            0 <= i < n && (#[trigger] l[i]).len() > TERM_ROARING_THRESHOLD ==> exists|r: int|
                0 <= r < self.roaring@.len() && (#[trigger] self.roaring@[r]).0 == i
    }

    /// The postings of a field whose terms `names`, in order, come with
    /// their UTF-8 bytes and their postings, doc ids ascending.
    pub(crate) fn from_sorted_lists(entries: Vec<(Vec<u8>, Vec<Posting>)>, Ghost(names): Ghost<Seq<Seq<char>>>) -> (r: FieldPostings)
        requires
            entries@.len() == names.len(),
            names.len() <= u32::MAX,
            sorted_names(names),
            forall|i: int| 0 <= i < names.len() ==> (#[trigger] entries@[i]).0@ == encode_utf8(names[i]),
            forall|i: int| 0 <= i < names.len() ==> doc_ids_ascending(#[trigger] entries@[i].1@),
            list_total(entries@, entries@.len()) <= u32::MAX,
        ensures
            r.wf(),
            r.term_seq() == names,
            forall|i: int| 0 <= i < names.len() ==> #[trigger] r.list_seq()[i] == entries@[i].1@,
    {
        let ghost source = entries@;
        let n = entries.len();
        let mut builder = fst_builder_memory();
        let mut doc_ids_flat: Vec<u32> = Vec::new();
        let mut freqs_flat: Vec<u32> = Vec::new();
        let mut postings_counts: Vec<u32> = Vec::new();
        let mut block_metas_flat: Vec<BlockMeta> = Vec::new();
        let mut offsets: Vec<u32> = Vec::new();
        let mut block_offsets: Vec<u32> = Vec::new();
        let mut roaring: Vec<(u32, RoaringDocSet)> = Vec::new();
        offsets.push(0);
        block_offsets.push(0);
        let ghost mut lists: Seq<Seq<Posting>> = Seq::empty();
        let mut idx: usize = 0;
        while idx < n
            invariant
                n == entries@.len(),
                n <= u32::MAX,
                entries@ == source,
                names.len() == n,
                forall|i: int| 0 <= i < n ==> (#[trigger] source[i]).0@ == encode_utf8(names[i]),
                forall|i: int| 0 <= i < n ==> doc_ids_ascending(#[trigger] source[i].1@),
                sorted_names(names),
                list_total(source, n as nat) <= u32::MAX,
                idx <= n,
                lists.len() == idx,
                fst_builder_entries(builder) == term_entries(names.subrange(0, idx as int)),
                doc_ids_flat@.len() <= list_total(source, idx as nat),
                offsets@.len() == idx + 1,
                offsets@[0] == 0,
                offsets@[idx as int] == doc_ids_flat@.len(),
                freqs_flat@.len() == doc_ids_flat@.len(),
                block_offsets@.len() == idx + 1,
                block_offsets@[0] == 0,
                block_offsets@[idx as int] == block_metas_flat@.len(),
                block_metas_flat@.len() <= doc_ids_flat@.len(),
                postings_counts@.len() == idx,
                forall|a: int, b: int|
                    #![trigger offsets@[a], offsets@[b]]
                    0 <= a <= b <= idx ==> offsets@[a] <= offsets@[b],
                forall|a: int, b: int|
                    #![trigger block_offsets@[a], block_offsets@[b]]
                    0 <= a <= b <= idx ==> block_offsets@[a] <= block_offsets@[b],
                forall|i: int|
                    0 <= i < idx ==> #[trigger] doc_ids_flat@.subrange(offsets@[i] as int, offsets@[i + 1] as int)
                        == doc_ids_of(lists[i]),
                forall|i: int|
                    0 <= i < idx ==> #[trigger] freqs_flat@.subrange(offsets@[i] as int, offsets@[i + 1] as int)
                        == freqs_of(lists[i]),
                forall|i: int|
                    0 <= i < idx ==> (#[trigger] block_metas_flat@.subrange(
                        block_offsets@[i] as int,
                        block_offsets@[i + 1] as int,
                    )).map_values(|b: BlockMeta| b.max_term_freq) == block_metas_spec(lists[i]),
                forall|i: int| 0 <= i < idx ==> #[trigger] postings_counts@[i] == lists[i].len(),
                forall|i: int| 0 <= i < idx ==> #[trigger] lists[i] == source[i].1@,
                forall|r: int|
                    0 <= r < roaring@.len() ==> {
                        let (i, set) = #[trigger] roaring@[r];
                        &&& i < idx
                        &&& lists[i as int].len() > TERM_ROARING_THRESHOLD
                        &&& set@ == doc_ids_of(lists[i as int])
                    },
                forall|a: int, b: int| 0 <= a < b < roaring@.len() ==> (#[trigger] roaring@[a]).0 < (#[trigger] roaring@[b]).0,
                forall|i: int|
                    0 <= i < idx && (#[trigger] lists[i]).len() > TERM_ROARING_THRESHOLD ==> exists|r: int|
                        0 <= r < roaring@.len() && (#[trigger] roaring@[r]).0 == i,
            decreases n - idx,
        {
            let ghost offsets_before = offsets@;
            let ghost block_offsets_before = block_offsets@;
            let merged = &entries[idx].1;
            let ghost m = merged@;
            assert(m == source[idx as int].1@);
            proof {
                lemma_list_total_step(source, idx as nat, n as nat);
                if idx > 0 {
                    lemma_utf8_order(names[idx - 1], names[idx as int]);
                    assert(names.subrange(0, idx as int)[idx - 1] == names[idx - 1]);
                }
            }
            let term_bytes = entries[idx].0.as_slice();
            let added = fst_builder_insert(&mut builder, term_bytes, idx as u64);
            proof {
                assert(entries@[idx as int].0@ == encode_utf8(names[idx as int]));
                assert(term_entries(names.subrange(0, idx + 1)) =~= term_entries(names.subrange(0, idx as int)).push(
                    (encode_utf8(names[idx as int]), idx as u64),
                ));
            }
            postings_counts.push(merged.len() as u32);

            let metas = build_block_metas(merged.as_slice());
            let ghost bm_before = block_metas_flat@;
            let mut k: usize = 0;
            while k < metas.len()
                invariant
                    k <= metas@.len(),
                    block_metas_flat@ == bm_before + metas@.subrange(0, k as int),
                decreases metas.len() - k,
            {
                block_metas_flat.push(BlockMeta { max_term_freq: metas[k].max_term_freq });
                k += 1;
                assert(block_metas_flat@ =~= bm_before + metas@.subrange(0, k as int));
            }
            proof {
                assert(metas@.subrange(0, k as int) =~= metas@);
                lemma_block_count_bound(m);
            }
            block_offsets.push(block_metas_flat.len() as u32);

            let ghost ids_before = doc_ids_flat@;
            let ghost freqs_before = freqs_flat@;
            let mut ids: Vec<u32> = Vec::new();
            let mut j: usize = 0;
            while j < merged.len()
                invariant
                    j <= m.len(),
                    m == merged@,
                    ids@ == doc_ids_of(m).subrange(0, j as int),
                    doc_ids_flat@ == ids_before + doc_ids_of(m).subrange(0, j as int),
                    freqs_flat@ == freqs_before + freqs_of(m).subrange(0, j as int),
                decreases merged.len() - j,
            {
                ids.push(merged[j].doc_id);
                doc_ids_flat.push(merged[j].doc_id);
                freqs_flat.push(merged[j].freq);
                j += 1;
                assert(ids@ =~= doc_ids_of(m).subrange(0, j as int));
                assert(doc_ids_flat@ =~= ids_before + doc_ids_of(m).subrange(0, j as int));
                assert(freqs_flat@ =~= freqs_before + freqs_of(m).subrange(0, j as int));
            }
            proof {
                assert(doc_ids_of(m).subrange(0, j as int) =~= doc_ids_of(m));
                assert(freqs_of(m).subrange(0, j as int) =~= freqs_of(m));
            }
            let ghost roaring_start = roaring@;
            if merged.len() > TERM_ROARING_THRESHOLD {
                let ghost roaring_before = roaring@;
                proof {
                    assert(ascending(ids@)) by {
                        assert forall|a: int, b: int| 0 <= a < b < ids@.len() implies ids@[a] < ids@[b] by {
                            assert(m[a].doc_id < m[b].doc_id);
                        }
                    }
                }
                roaring.push((idx as u32, RoaringDocSet::from_sorted(ids.as_slice())));
                proof {
                    assert forall|a: int, b: int| 0 <= a < b < roaring@.len() implies (#[trigger] roaring@[a]).0
                        < (#[trigger] roaring@[b]).0 by {
                        assert(roaring@[a] == roaring_before[a]);
                        if b < roaring_before.len() {
                            assert(roaring@[b] == roaring_before[b]);
                        } else {
                            assert(roaring@[b].0 == idx as u32);
                            let (i, set) = roaring_before[a];
                            assert(i < idx);
                        }
                    }
                }
            }
            offsets.push(freqs_flat.len() as u32);
            proof {
                let ghost old_lists = lists;
                lists = lists.push(m);
                let new_ids = doc_ids_flat@;
                let new_freqs = freqs_flat@;
                assert forall|i: int| 0 <= i < idx + 1 implies #[trigger] new_ids.subrange(offsets@[i] as int, offsets@[i + 1] as int) == doc_ids_of(
                    lists[i],
                ) by {
                    if i < idx {
                        assert(offsets@[i] == offsets_before[i] && offsets@[i + 1] == offsets_before[i + 1]);
                        assert(offsets_before[i] <= offsets_before[i + 1]);
                        assert(offsets_before[i + 1] <= offsets_before[idx as int]);
                        assert(ids_before.subrange(offsets_before[i] as int, offsets_before[i + 1] as int) == doc_ids_of(
                            old_lists[i],
                        ));
                        assert(new_ids.subrange(offsets@[i] as int, offsets@[i + 1] as int) =~= ids_before.subrange(
                            offsets@[i] as int,
                            offsets@[i + 1] as int,
                        ));
                    } else {
                        assert(new_ids.subrange(offsets@[i] as int, offsets@[i + 1] as int) =~= doc_ids_of(m));
                    }
                }
                assert forall|i: int| 0 <= i < idx + 1 implies #[trigger] new_freqs.subrange(offsets@[i] as int, offsets@[i + 1] as int) == freqs_of(
                    lists[i],
                ) by {
                    if i < idx {
                        assert(offsets@[i] == offsets_before[i] && offsets@[i + 1] == offsets_before[i + 1]);
                        assert(offsets_before[i] <= offsets_before[i + 1]);
                        assert(offsets_before[i + 1] <= offsets_before[idx as int]);
                        assert(freqs_before.subrange(offsets_before[i] as int, offsets_before[i + 1] as int) == freqs_of(
                            old_lists[i],
                        ));
                        assert(new_freqs.subrange(offsets@[i] as int, offsets@[i + 1] as int) =~= freqs_before.subrange(
                            offsets@[i] as int,
                            offsets@[i + 1] as int,
                        ));
                    } else {
                        assert(new_freqs.subrange(offsets@[i] as int, offsets@[i + 1] as int) =~= freqs_of(m));
                    }
                }
                assert forall|i: int| 0 <= i < idx + 1 implies (#[trigger] block_metas_flat@.subrange(
                    block_offsets@[i] as int,
                    block_offsets@[i + 1] as int,
                )).map_values(|b: BlockMeta| b.max_term_freq) == block_metas_spec(lists[i]) by {
                    if i < idx {
                        assert(block_offsets@[i] == block_offsets_before[i] && block_offsets@[i + 1]
                            == block_offsets_before[i + 1]);
                        assert(block_offsets_before[i] <= block_offsets_before[i + 1]);
                        assert(block_offsets_before[i + 1] <= block_offsets_before[idx as int]);
                        assert(bm_before.subrange(block_offsets_before[i] as int, block_offsets_before[i + 1] as int).map_values(
                            |b: BlockMeta| b.max_term_freq,
                        ) == block_metas_spec(old_lists[i]));
                        assert(block_metas_flat@.subrange(block_offsets@[i] as int, block_offsets@[i + 1] as int)
                            =~= bm_before.subrange(block_offsets@[i] as int, block_offsets@[i + 1] as int));
                    } else {
                        assert(block_metas_flat@.subrange(block_offsets@[i] as int, block_offsets@[i + 1] as int)
                            =~= metas@);
                    }
                }
                assert forall|a: int, b: int| 0 <= a <= b <= idx + 1 implies #[trigger] offsets@[a] <= #[trigger] offsets@[b] by {
                    if b == idx + 1 && a <= idx {
                        assert(offsets@[a] == offsets_before[a]);
                        assert(offsets_before[a] <= offsets_before[idx as int]);
                    } else if b <= idx {
                        assert(offsets@[a] == offsets_before[a] && offsets@[b] == offsets_before[b]);
                    }
                }
                assert forall|a: int, b: int| 0 <= a <= b <= idx + 1 implies #[trigger] block_offsets@[a] <= #[trigger] block_offsets@[b] by {
                    if b == idx + 1 && a <= idx {
                        assert(block_offsets@[a] == block_offsets_before[a]);
                        assert(block_offsets_before[a] <= block_offsets_before[idx as int]);
                    } else if b <= idx {
                        assert(block_offsets@[a] == block_offsets_before[a] && block_offsets@[b] == block_offsets_before[b]);
                    }
                }
                assert forall|i: int|
                    0 <= i < idx + 1 && (#[trigger] lists[i]).len() > TERM_ROARING_THRESHOLD implies exists|r: int|
                        0 <= r < roaring@.len() && (#[trigger] roaring@[r]).0 == i by {
                    if i == idx {
                        assert(roaring@[roaring@.len() - 1].0 == idx);
                    } else {
                        assert(old_lists[i] == lists[i]);
                        let r = choose|r: int| 0 <= r < roaring_start.len() && (#[trigger] roaring_start[r]).0 == i;
                        assert(roaring@[r] == roaring_start[r]);
                    }
                }
            }
            idx += 1;
        }
        let fst = fst_builder_into_map(builder);
        proof {
            assert(names.subrange(0, n as int) =~= names);
        }
        FieldPostings {
            fst,
            doc_ids_flat,
            freqs_flat,
            postings_counts,
            block_metas_flat,
            offsets,
            block_offsets,
            roaring,
            terms: Ghost(names),
            lists: Ghost(lists),
        }
    }

    /// The postings of the terms of one field, term by term in the map's
    /// order: each term's postings merged (see [`merge_term_postings`]).
    pub fn from_terms(terms: StringMap<Vec<Posting>>) -> (r: FieldPostings)
        requires
            terms.wf(),
            terms.entry_seq().len() <= u32::MAX,
            list_total(terms.entry_seq(), terms.entry_seq().len()) <= u32::MAX,
        ensures
            r.wf(),
            r.term_seq() == terms.names(),
            forall|i: int| 0 <= i < r.term_seq().len() ==> merges(#[trigger] r.list_seq()[i], terms.entry_seq()[i].1@),
    {
        proof {
            terms.lemma_entries();
        }
        let ghost names = terms.names();
        let ghost source = terms.entry_seq();
        let entries = terms.into_entries();
        let n = entries.len();
        let mut merged: Vec<(Vec<u8>, Vec<Posting>)> = Vec::new();
        let mut idx: usize = 0;
        while idx < n
            invariant
                n == entries@.len(),
                entries@ == source,
                names == source.map_values(|e: (String, Vec<Posting>)| e.0@),
                idx <= n,
                merged@.len() == idx,
                list_total(merged@, idx as nat) <= list_total(source, idx as nat),
                forall|i: int| 0 <= i < idx ==> (#[trigger] merged@[i]).0@ == encode_utf8(names[i]),
                forall|i: int| 0 <= i < idx ==> merges(#[trigger] merged@[i].1@, source[i].1@),
            decreases n - idx,
        {
            let list = merge_term_postings(entries[idx].1.as_slice());
            let key = vstd::slice::slice_to_vec(entries[idx].0.as_str().as_bytes());
            let ghost before = merged@;
            proof {
                assert(names[idx as int] == entries@[idx as int].0@);
            }
            merged.push((key, list));
            proof {
                lemma_list_total_prefix(merged@, before, idx as nat);
                assert(list_total(merged@, (idx + 1) as nat) == list_total(before, idx as nat) + list@.len());
                assert(list_total(source, (idx + 1) as nat) == list_total(source, idx as nat) + source[idx as int].1@.len());
            }
            idx += 1;
        }
        proof {
            assert(names.len() == n);
        }
        FieldPostings::from_sorted_lists(merged, Ghost(names))
    }
}

proof fn lemma_list_total_prefix<K>(a: Seq<(K, Vec<Posting>)>, b: Seq<(K, Vec<Posting>)>, n: nat)
    requires
        n <= a.len(),
        n <= b.len(),
        forall|j: int| 0 <= j < n ==> a[j] == b[j],
    ensures
        list_total(a, n) == list_total(b, n),
    decreases n,
{
    if n > 0 {
        lemma_list_total_prefix(a, b, (n - 1) as nat);
    }
}

/// The summed lengths only grow with more lists.
pub proof fn lemma_list_total_grows<K>(entries: Seq<(K, Vec<Posting>)>, i: nat, n: nat)
    requires
        i <= n <= entries.len(),
    ensures
        list_total(entries, i) <= list_total(entries, n),
    decreases n - i,
{
    if i < n {
        lemma_list_total_grows(entries, i, (n - 1) as nat);
    }
}

proof fn lemma_list_total_step<K>(entries: Seq<(K, Vec<Posting>)>, i: nat, n: nat)
    requires
        i < n <= entries.len(),
    ensures
        list_total(entries, i) + entries[i as int].1@.len() <= list_total(entries, n),
    decreases n - i,
{
    if i + 1 < n {
        lemma_list_total_step(entries, i, (n - 1) as nat);
    }
}

proof fn lemma_block_count_bound(ps: Seq<Posting>)
    ensures
        block_metas_spec(ps).len() <= ps.len(),
{
    assert(((ps.len() + 127) / 128) as nat <= ps.len()) by (nonlinear_arith);
}


/// The views of `s`.
pub open spec fn string_views(s: Seq<String>) -> Seq<Seq<char>> {
    s.map_values(|x: String| x@)
}

/// Whether `t` holds the term `term`.
pub open spec fn has_term(t: Seq<Seq<char>>, term: Seq<char>) -> bool {
    exists|i: int| 0 <= i < t.len() && #[trigger] t[i] == term
}

/// The position of `term` in `t`.
pub open spec fn term_position(t: Seq<Seq<char>>, term: Seq<char>) -> int {
    choose|i: int| 0 <= i < t.len() && #[trigger] t[i] == term
}

impl FieldPostings {
    /// The postings of each term.
    pub closed spec fn term_map(&self) -> Map<Seq<char>, Seq<Posting>> {
        Map::new(
            |k: Seq<char>| has_term(self.terms@, k),
            |k: Seq<char>| self.lists@[term_position(self.terms@, k)],
        )
    }

    proof fn lemma_position(&self, i: int)
        requires
            self.wf(),
            0 <= i < self.terms@.len(),
        ensures
            term_position(self.terms@, self.terms@[i]) == i,
            self.term_map().contains_key(self.terms@[i]),
            self.term_map()[self.terms@[i]] == self.lists@[i],
    {
        let t = self.terms@;
        let j = term_position(t, t[i]);
        assert(has_term(t, t[i]));
        if j != i {
            lemma_lex_irreflexive(t[i]);
            if i < j {
                assert(lex_lt(t[i], t[j]));
            } else {
                assert(lex_lt(t[j], t[i]));
            }
        }
    }

    /// The terms, in order, and the term map agree.
    pub proof fn lemma_terms(&self)
        requires
            self.wf(),
        ensures
            sorted_names(self.term_seq()),
            self.term_map().dom() == self.term_seq().to_set(),
            forall|i: int|
                0 <= i < self.term_seq().len() ==> self.term_map()[#[trigger] self.term_seq()[i]]
                    == self.list_seq()[i],
    {
        assert forall|i: int| 0 <= i < self.term_seq().len() implies self.term_map()[#[trigger] self.term_seq()[i]]
            == self.list_seq()[i] by {
            self.lemma_position(i);
        }
        assert(self.term_map().dom() =~= self.term_seq().to_set());
    }

    /// The ordinal of `term`.
    fn term_idx(&self, term: &str) -> (r: Option<usize>)
        requires
            self.wf(),
        ensures
            match r {
                Some(i) => i < self.terms@.len() && self.terms@[i as int] == term@,
                None => !has_term(self.terms@, term@),
            },
    {
        let ghost t = self.terms@;
        let ghost e = fst_map_entries(self.fst);
        match fst_map_get(&self.fst, term.as_bytes()) {
            None => {
                proof {
                    if has_term(t, term@) {
                        let i = choose|i: int| 0 <= i < t.len() && #[trigger] t[i] == term@;
                        assert(e[i].0 == encode_utf8(term@));
                    }
                }
                None
            },
            Some(v) => {
                proof {
                    let i = choose|i: int| 0 <= i < e.len() && #[trigger] e[i].0 == encode_utf8(term@) && e[i].1 == v;
                    lemma_encode_injective(t[i], term@);
                }
                Some(v as usize)
            },
        }
    }

    /// The ordinal and the range of the channels that hold `term`.
    fn term_range(&self, term: &str) -> (r: Option<(usize, usize, usize)>)
        requires
            self.wf(),
        ensures
            match r {
                Some((i, start, end)) => {
                    &&& i < self.terms@.len()
                    &&& self.terms@[i as int] == term@
                    &&& start == self.offsets@[i as int]
                    &&& end == self.offsets@[i + 1]
                    &&& start <= end <= self.doc_ids_flat@.len()
                },
                None => !has_term(self.terms@, term@),
            },
    {
        let idx = match self.term_idx(term) {
            Some(i) => i,
            None => return None,
        };
        let start = self.offsets[idx] as usize;
        let end = self.offsets[idx + 1] as usize;
        proof {
            assert(self.offsets@[idx as int] <= self.offsets@[idx + 1]);
            assert(self.offsets@[idx + 1] <= self.offsets@[self.terms@.len() as int]);
        }
        Some((idx, start, end))
    }

    /// The doc ids and frequencies of `term`, index-aligned.
    fn lookup(&self, term: &str) -> (r: Option<(&[u32], &[u32])>)
        requires
            self.wf(),
        ensures
            r is Some <==> self.term_map().contains_key(term@),
            r matches Some((ids, freqs)) ==> ids@ == doc_ids_of(self.term_map()[term@]) && freqs@ == freqs_of(
                self.term_map()[term@],
            ),
    {
        let (idx, start, end) = match self.term_range(term) {
            Some(x) => x,
            None => return None,
        };
        proof {
            self.lemma_position(idx as int);
            assert(self.doc_ids_flat@.subrange(start as int, end as int) == doc_ids_of(self.lists@[idx as int]));
            assert(self.freqs_flat@.subrange(start as int, end as int) == freqs_of(self.lists@[idx as int]));
        }
        let ids = vstd::slice::slice_subrange(self.doc_ids_flat.as_slice(), start, end);
        let freqs = vstd::slice::slice_subrange(self.freqs_flat.as_slice(), start, end);
        Some((ids, freqs))
    }

    /// The block statistics of the term with ordinal `idx`.
    fn block_metas_at(&self, idx: usize) -> (r: &[BlockMeta])
        requires
            self.wf(),
            idx < self.terms@.len(),
        ensures
            r@.map_values(|b: BlockMeta| b.max_term_freq) == block_metas_spec(self.lists@[idx as int]),
    {
        let start = self.block_offsets[idx] as usize;
        let end = self.block_offsets[idx + 1] as usize;
        proof {
            assert(self.block_offsets@[idx as int] <= self.block_offsets@[idx + 1]);
            assert(self.block_offsets@[idx + 1] <= self.block_offsets@[self.terms@.len() as int]);
            assert(self.block_metas_flat@.subrange(start as int, end as int).map_values(|b: BlockMeta| b.max_term_freq)
                == block_metas_spec(self.lists@[idx as int]));
        }
        vstd::slice::slice_subrange(self.block_metas_flat.as_slice(), start, end)
    }

    /// The block statistics of `term`.
    fn lookup_block_metas(&self, term: &str) -> (r: Option<&[BlockMeta]>)
        requires
            self.wf(),
        ensures
            r is Some <==> self.term_map().contains_key(term@),
            r matches Some(b) ==> b@.map_values(|m: BlockMeta| m.max_term_freq) == block_metas_spec(
                self.term_map()[term@],
            ),
    {
        let idx = match self.term_idx(term) {
            Some(i) => i,
            None => return None,
        };
        proof {
            self.lemma_position(idx as int);
        }
        Some(self.block_metas_at(idx))
    }

    /// The roaring set of the term with ordinal `term_idx`, present exactly
    /// for terms with more than [`TERM_ROARING_THRESHOLD`] postings.
    fn lookup_roaring(&self, term_idx: u32) -> (r: Option<&RoaringDocSet>)
        requires
            self.wf(),
            term_idx < self.terms@.len(),
        ensures
            match r {
                Some(set) => set@ == doc_ids_of(self.lists@[term_idx as int]),
                None => self.lists@[term_idx as int].len() <= TERM_ROARING_THRESHOLD,
            },
    {
        let mut lo: usize = 0;
        let mut hi: usize = self.roaring.len();
        while lo < hi
            invariant
                self.wf(),
                term_idx < self.terms@.len(),
                lo <= hi <= self.roaring@.len(),
                forall|r: int| 0 <= r < lo ==> (#[trigger] self.roaring@[r]).0 < term_idx,
                forall|r: int| hi <= r < self.roaring@.len() ==> (#[trigger] self.roaring@[r]).0 > term_idx,
            decreases hi - lo,
        {
            let mid = lo + (hi - lo) / 2;
            let key = self.roaring[mid].0;
            if key < term_idx {
                proof {
                    assert forall|r: int| 0 <= r < mid + 1 implies (#[trigger] self.roaring@[r]).0 < term_idx by {
                        if r < mid {
                            assert(self.roaring@[r].0 < self.roaring@[mid as int].0);
                        }
                    }
                }
                lo = mid + 1;
            } else if key > term_idx {
                proof {
                    assert forall|r: int| mid <= r < self.roaring@.len() implies (#[trigger] self.roaring@[r]).0
                        > term_idx by {
                        if r > mid {
                            assert(self.roaring@[mid as int].0 < self.roaring@[r].0);
                        }
                    }
                }
                hi = mid;
            } else {
                proof {
                    let (i, set) = self.roaring@[mid as int];
                }
                return Some(&self.roaring[mid].1);
            }
        }
        proof {
            if self.lists@[term_idx as int].len() > TERM_ROARING_THRESHOLD {
                let r = choose|r: int| 0 <= r < self.roaring@.len() && (#[trigger] self.roaring@[r]).0 == term_idx;
            }
        }
        None
    }

    /// The postings of `term` with their block statistics and, for a
    /// frequent term, its roaring set.
    fn lookup_with_block_metas(&self, term: &str) -> (r: Option<PostingsList<'_>>)
        requires
            self.wf(),
        ensures
            r is Some <==> self.term_map().contains_key(term@),
            r matches Some(list) ==> postings_list_of(list, self.term_map()[term@]),
    {
        let (idx, start, end) = match self.term_range(term) {
            Some(x) => x,
            None => return None,
        };
        proof {
            self.lemma_position(idx as int);
            assert(self.doc_ids_flat@.subrange(start as int, end as int) == doc_ids_of(self.lists@[idx as int]));
            assert(self.freqs_flat@.subrange(start as int, end as int) == freqs_of(self.lists@[idx as int]));
        }
        let ids = vstd::slice::slice_subrange(self.doc_ids_flat.as_slice(), start, end);
        let freqs = vstd::slice::slice_subrange(self.freqs_flat.as_slice(), start, end);
        let metas = self.block_metas_at(idx);
        let roaring = self.lookup_roaring(idx as u32);
        Some(PostingsList::new(ids, freqs, metas, roaring))
    }

    /// The terms, in order.
    fn sorted_terms(&self) -> (r: Vec<String>)
        requires
            self.wf(),
        ensures
            string_views(r@) == self.terms@,
    {
        let entries = fst_map_stream(&self.fst);
        let ghost t = self.terms@;
        proof {
            assert(entries@.map_values(|e: (Vec<u8>, u64)| (e.0@, e.1)).len() == entries@.len());
            assert(term_entries(t).len() == t.len());
        }
        let mut out: Vec<String> = Vec::new();
        let mut i: usize = 0;
        while i < entries.len()
            invariant
                i <= entries@.len(),
                entries@.map_values(|e: (Vec<u8>, u64)| (e.0@, e.1)) == term_entries(t),
                entries@.len() == t.len(),
                string_views(out@) == t.subrange(0, i as int),
            decreases entries.len() - i,
        {
            proof {
                assert(entries@.map_values(|e: (Vec<u8>, u64)| (e.0@, e.1))[i as int] == term_entries(t)[i as int]);
                vstd::utf8::encode_utf8_valid_utf8(t[i as int]);
                vstd::utf8::encode_utf8_decode_utf8(t[i as int]);
            }
            let term = utf8_lossy(entries[i].0.as_slice());
            assert(term@ == t[i as int]);
            let ghost before = out@;
            out.push(term);
            proof {
                assert(out@ == before.push(term));
                assert(string_views(before).len() == before.len());
                assert(string_views(before).len() == i);
                assert forall|k: int| 0 <= k < i + 1 implies #[trigger] string_views(out@)[k] == t.subrange(
                    0,
                    i + 1,
                )[k] by {
                    if k < i {
                        assert(out@[k] == before[k]);
                        assert(string_views(before)[k] == t.subrange(0, i as int)[k]);
                    }
                }
                assert(string_views(out@) =~= t.subrange(0, i + 1));
            }
            i += 1;
        }
        proof {
            assert(t.subrange(0, i as int) =~= t);
        }
        out
    }
}

/// `list` hands out `ps`: its doc ids, frequencies, the block statistics
/// of `ps`, and a roaring set of the doc ids exactly when `ps` has more
/// than [`TERM_ROARING_THRESHOLD`] postings.
pub open spec fn postings_list_of(list: PostingsList<'_>, ps: Seq<Posting>) -> bool {
    &&& list.doc_ids_view() == doc_ids_of(ps)
    &&& list.freqs_view() == freqs_of(ps)
    &&& list.block_metas_view().map_values(|b: BlockMeta| b.max_term_freq) == block_metas_spec(ps)
    &&& match list.roaring_view() {
        Some(set) => set@ == doc_ids_of(ps),
        None => ps.len() <= TERM_ROARING_THRESHOLD,
    }
}


/// The ids of two ascending runs, each once, ascending.
fn union_sorted(a: &[u32], b: &[u32]) -> (r: Vec<u32>)
    requires
        ascending(a@),
        ascending(b@),
    ensures
        ascending(r@),
        forall|d: u32| r@.contains(d) <==> (a@.contains(d) || b@.contains(d)),
{
    let mut out: Vec<u32> = Vec::new();
    let mut i: usize = 0;
    let mut j: usize = 0;
    while i < a.len() || j < b.len()
        invariant
            ascending(a@),
            ascending(b@),
            i <= a@.len(),
            j <= b@.len(),
            ascending(out@),
            forall|d: u32|
                out@.contains(d) <==> (a@.subrange(0, i as int).contains(d) || b@.subrange(0, j as int).contains(d)),
            out@.len() > 0 && i < a@.len() ==> out@.last() < a@[i as int],
            out@.len() > 0 && j < b@.len() ==> out@.last() < b@[j as int],
        decreases a@.len() + b@.len() - i - j,
    {
        let ghost before = out@;
        let ghost (i0, j0) = (i, j);
        let v: u32;
        if j >= b.len() || (i < a.len() && a[i] < b[j]) {
            v = a[i];
            i += 1;
        } else if i >= a.len() || b[j] < a[i] {
            v = b[j];
            j += 1;
        } else {
            v = a[i];
            i += 1;
            j += 1;
        }
        out.push(v);
        proof {
            assert(a@.subrange(0, i as int) =~= if i > i0 {
                a@.subrange(0, i0 as int).push(a@[i0 as int])
            } else {
                a@.subrange(0, i0 as int)
            });
            assert(b@.subrange(0, j as int) =~= if j > j0 {
                b@.subrange(0, j0 as int).push(b@[j0 as int])
            } else {
                b@.subrange(0, j0 as int)
            });
            let ap = a@.subrange(0, i0 as int);
            let bp = b@.subrange(0, j0 as int);
            let ap2 = a@.subrange(0, i as int);
            let bp2 = b@.subrange(0, j as int);
            assert(i > i0 ==> v == a@[i0 as int]);
            assert(j > j0 ==> v == b@[j0 as int]);
            assert(i > i0 || j > j0);
            assert forall|d: u32| ap2.contains(d) <==> (ap.contains(d) || (i > i0 && d == a@[i0 as int])) by {
                if ap2.contains(d) {
                    let x = choose|x: int| 0 <= x < ap2.len() && ap2[x] == d;
                    if x < ap.len() {
                        assert(ap[x] == d);
                    }
                }
                if ap.contains(d) {
                    let x = choose|x: int| 0 <= x < ap.len() && ap[x] == d;
                    assert(ap2[x] == d);
                }
                if i > i0 && d == a@[i0 as int] {
                    assert(ap2[i0 as int] == d);
                }
            }
            assert forall|d: u32| bp2.contains(d) <==> (bp.contains(d) || (j > j0 && d == b@[j0 as int])) by {
                if bp2.contains(d) {
                    let x = choose|x: int| 0 <= x < bp2.len() && bp2[x] == d;
                    if x < bp.len() {
                        assert(bp[x] == d);
                    }
                }
                if bp.contains(d) {
                    let x = choose|x: int| 0 <= x < bp.len() && bp[x] == d;
                    assert(bp2[x] == d);
                }
                if j > j0 && d == b@[j0 as int] {
                    assert(bp2[j0 as int] == d);
                }
            }
            assert forall|d: u32| out@.contains(d) <==> (before.contains(d) || d == v) by {
                if out@.contains(d) && d != v {
                    let x = choose|x: int| 0 <= x < out@.len() && out@[x] == d;
                    assert(before[x] == d);
                }
                if before.contains(d) {
                    let x = choose|x: int| 0 <= x < before.len() && before[x] == d;
                    assert(out@[x] == d);
                }
                assert(out@[before.len() as int] == v);
            }
            assert forall|d: u32| out@.contains(d) <==> (ap2.contains(d) || bp2.contains(d)) by {
                assert(before.contains(d) <==> (ap.contains(d) || bp.contains(d)));
            }
            assert forall|x: int, y: int| 0 <= x < y < out@.len() implies out@[x] < out@[y] by {
                if y == before.len() {
                    assert(out@[x] == before[x]);
                    if x < before.len() - 1 {
                        assert(before[x] < before[before.len() - 1]);
                    }
                } else {
                    assert(out@[x] == before[x] && out@[y] == before[y]);
                }
            }
        }
    }
    proof {
        assert(a@.subrange(0, i as int) =~= a@);
        assert(b@.subrange(0, j as int) =~= b@);
    }
    out
}

impl FieldPostings {
    /// The doc ids of every term whose bytes start with `prefix`, each
    /// once, ascending: one range scan of the FST from `prefix` to its
    /// upper bound.
    fn collect_prefix_doc_ids(&self, prefix: &[u8]) -> (r: Vec<u32>)
        requires
            self.wf(),
        ensures
            ascending(r@),
            forall|d: u32|
                r@.contains(d) <==> exists|i: int|
                    0 <= i < self.terms@.len() && has_prefix(prefix@, encode_utf8(#[trigger] self.terms@[i]))
                        && doc_ids_of(self.lists@[i]).contains(d),
    {
        let ghost t = self.terms@;
        let ghost all = term_entries(t);
        let ghost pred = |e: (Seq<u8>, u64)| has_prefix(prefix@, e.0);
        let upper = prefix_upper_bound(prefix);
        let hits = match upper {
            Some(u) => {
                let h = fst_map_range_between(&self.fst, prefix, u.as_slice());
                proof {
                    assert((|e: (Seq<u8>, u64)| !bytes_lt(e.0, prefix@) && bytes_lt(e.0, u@)) =~= pred) by {
                        assert forall|e: (Seq<u8>, u64)| (!bytes_lt(e.0, prefix@) && bytes_lt(e.0, u@)) == pred(e) by {
                            law_prefix_range(prefix@, e.0);
                        }
                    }
                }
                h
            },
            None => {
                let h = fst_map_range_from(&self.fst, prefix);
                proof {
                    assert((|e: (Seq<u8>, u64)| !bytes_lt(e.0, prefix@)) =~= pred) by {
                        assert forall|e: (Seq<u8>, u64)| !bytes_lt(e.0, prefix@) == pred(e) by {
                            law_prefix_range(prefix@, e.0);
                        }
                    }
                }
                h
            },
        };
        let ghost hv = hits@.map_values(|e: (Vec<u8>, u64)| (e.0@, e.1));
        assert(hv == all.filter(pred));
        proof {
            broadcast use vstd::seq_lib::group_filter_ensures;
            assert(hv.len() == hits@.len());
            assert forall|k: int| 0 <= k < hv.len() implies hv[k].1 < t.len() && #[trigger] hv[k] == all[hv[k].1 as int]
                && pred(all[hv[k].1 as int]) by {
                assert(pred(hv[k]));
                assert(all.filter(pred).contains(hv[k]));
                all.lemma_filter_contains_rev(pred, hv[k]);
            }
        }
        let mut out: Vec<u32> = Vec::new();
        let mut k: usize = 0;
        while k < hits.len()
            invariant
                self.wf(),
                t == self.terms@,
                all == term_entries(t),
                k <= hits@.len(),
                hv == hits@.map_values(|e: (Vec<u8>, u64)| (e.0@, e.1)),
                hv.len() == hits@.len(),
                forall|x: int| 0 <= x < hv.len() ==> hv[x].1 < t.len() && #[trigger] hv[x] == all[hv[x].1 as int],
                ascending(out@),
                forall|d: u32|
                    out@.contains(d) <==> exists|x: int|
                        0 <= x < k && #[trigger] doc_ids_of(self.lists@[hv[x].1 as int]).contains(d),
            decreases hits.len() - k,
        {
            let ghost before = out@;
            proof {
                assert(hv[k as int] == (hits@[k as int].0@, hits@[k as int].1));
            }
            let idx = hits[k].1 as usize;
            let start = self.offsets[idx] as usize;
            let end = self.offsets[idx + 1] as usize;
            proof {
                assert(self.offsets@[idx as int] <= self.offsets@[idx + 1]);
                assert(self.offsets@[idx + 1] <= self.offsets@[t.len() as int]);
                assert(self.doc_ids_flat@.subrange(start as int, end as int) == doc_ids_of(self.lists@[idx as int]));
                assert(doc_ids_ascending(self.lists@[idx as int]));
                assert(ascending(doc_ids_of(self.lists@[idx as int]))) by {
                    let ps = self.lists@[idx as int];
                    assert forall|x: int, y: int| 0 <= x < y < doc_ids_of(ps).len() implies doc_ids_of(ps)[x]
                        < doc_ids_of(ps)[y] by {
                        assert(ps[x].doc_id < ps[y].doc_id);
                    }
                }
            }
            let ids = vstd::slice::slice_subrange(self.doc_ids_flat.as_slice(), start, end);
            out = union_sorted(out.as_slice(), ids);
            proof {
                assert forall|d: u32| out@.contains(d) <==> exists|x: int|
                    0 <= x < k + 1 && #[trigger] doc_ids_of(self.lists@[hv[x].1 as int]).contains(d) by {
                    if before.contains(d) {
                        let x = choose|x: int| 0 <= x < k && #[trigger] doc_ids_of(self.lists@[hv[x].1 as int]).contains(d);
                    }
                    if exists|x: int| 0 <= x < k + 1 && #[trigger] doc_ids_of(self.lists@[hv[x].1 as int]).contains(d) {
                        let x = choose|x: int| 0 <= x < k + 1 && #[trigger] doc_ids_of(self.lists@[hv[x].1 as int]).contains(d);
                        if x < k {
                            assert(before.contains(d));
                        }
                    }
                }
            }
            k += 1;
        }
        proof {
            broadcast use vstd::seq_lib::group_filter_ensures;
            assert forall|d: u32| out@.contains(d) <==> exists|i: int|
                0 <= i < t.len() && has_prefix(prefix@, encode_utf8(#[trigger] t[i])) && doc_ids_of(self.lists@[i]).contains(d) by {
                if out@.contains(d) {
                    let x = choose|x: int| 0 <= x < k && #[trigger] doc_ids_of(self.lists@[hv[x].1 as int]).contains(d);
                    let i = hv[x].1 as int;
                    assert(hv[x] == all[i]);
                    assert(pred(all.filter(pred)[x]));
                    assert(has_prefix(prefix@, encode_utf8(t[i])));
                }
                if exists|i: int| 0 <= i < t.len() && has_prefix(prefix@, encode_utf8(#[trigger] t[i])) && doc_ids_of(self.lists@[i]).contains(d) {
                    let i = choose|i: int| 0 <= i < t.len() && has_prefix(prefix@, encode_utf8(#[trigger] t[i])) && doc_ids_of(self.lists@[i]).contains(d);
                    assert(pred(all[i]));
                    assert(all.filter(pred).contains(all[i]));
                    let x = choose|x: int| 0 <= x < hv.len() && hv[x] == all[i];
                    assert(all[i].1 == i as u64);
                    assert(hv[x].1 as int == i);
                }
            }
        }
        out
    }
}


// ----- the dictionary -----

/// Per field, its terms and their postings.
pub struct TermDictionary {
    fields: StringMap<FieldPostings>,
}

impl TermDictionary {
    #[verifier::type_invariant]
    spec fn inv(self) -> bool {
        &&& self.fields.wf()
        &&& forall|k: Seq<char>| #[trigger] self.fields.map().contains_key(k) ==> self.fields.map()[k].wf()
    }

    /// Each field's terms with their postings.
    pub closed spec fn postings_view(&self) -> Map<Seq<char>, Map<Seq<char>, Seq<Posting>>> {
        self.fields.map().map_values(|fp: FieldPostings| fp.term_map())
    }

    /// The terms of `field`, in order; none for a field the dictionary
    /// does not hold.
    pub closed spec fn field_terms(&self, field: Seq<char>) -> Seq<Seq<char>> {
        if self.fields.map().contains_key(field) {
            self.fields.map()[field].term_seq()
        } else {
            Seq::empty()
        }
    }

    /// The fields, in order.
    pub closed spec fn field_list(&self) -> Seq<Seq<char>> {
        self.fields.names()
    }

    /// The dictionary of the per-field postings `fields`.
    pub(crate) fn from_fields(fields: StringMap<FieldPostings>) -> (r: Self)
        requires
            fields.wf(),
            forall|k: Seq<char>| #[trigger] fields.map().contains_key(k) ==> fields.map()[k].wf(),
        ensures
            r.postings_view() == fields.map().map_values(|fp: FieldPostings| fp.term_map()),
            r.field_list() == fields.names(),
            forall|k: Seq<char>|
                #[trigger] fields.map().contains_key(k) ==> r.field_terms(k) == fields.map()[k].term_seq(),
    {
        TermDictionary { fields }
    }

    /// The terms of `field`, in order (none for an unknown field).
    pub fn terms(&self, field: &str) -> (r: TermsEnum)
        ensures
            r.wf(),
            r.remaining() == self.field_terms(field@),
            sorted_names(r.remaining()),
            self.postings_view().contains_key(field@) ==> r.remaining().to_set() == self.postings_view()[field@].dom(),
    {
        proof {
            use_type_invariant(self);
        }
        match self.fields.get(field) {
            Some(fp) => {
                proof {
                    fp.lemma_terms();
                }
                let terms = fp.sorted_terms();
                let r = TermsEnum::new(terms);
                assert(r.remaining() == string_views(terms@));
                r
            },
            None => {
                let r = TermsEnum::new(Vec::new());
                assert(r.remaining() =~= Seq::<Seq<char>>::empty());
                r
            },
        }
    }

    /// The postings of `term` in `field`, in doc id order.
    pub fn postings(&self, field: &str, term: &str) -> (r: Option<PostingsEnum<'_>>)
        ensures
            r is Some <==> (self.postings_view().contains_key(field@) && self.postings_view()[field@].contains_key(
                term@,
            )),
            r matches Some(e) ==> e.wf() && e.remaining() == self.postings_view()[field@][term@],
    {
        proof {
            use_type_invariant(self);
        }
        let fp = match self.fields.get(field) {
            Some(fp) => fp,
            None => return None,
        };
        match fp.lookup(term) {
            Some((ids, freqs)) => {
                let ghost ps = fp.term_map()[term@];
                let e = PostingsEnum::new(ids, freqs);
                assert(e.remaining() =~= ps);
                Some(e)
            },
            None => None,
        }
    }

    /// The postings of `term` in `field` with their block statistics and,
    /// for a frequent term, its roaring set.
    pub fn postings_with_block_metas(&self, field: &str, term: &str) -> (r: Option<PostingsList<'_>>)
        ensures
            r is Some <==> (self.postings_view().contains_key(field@) && self.postings_view()[field@].contains_key(
                term@,
            )),
            r matches Some(list) ==> postings_list_of(list, self.postings_view()[field@][term@]),
    {
        proof {
            use_type_invariant(self);
        }
        let fp = match self.fields.get(field) {
            Some(fp) => fp,
            None => return None,
        };
        fp.lookup_with_block_metas(term)
    }

    /// The block statistics of `term` in `field`.
    pub fn block_metas(&self, field: &str, term: &str) -> (r: Option<&[BlockMeta]>)
        ensures
            r is Some <==> (self.postings_view().contains_key(field@) && self.postings_view()[field@].contains_key(
                term@,
            )),
            r matches Some(b) ==> b@.map_values(|m: BlockMeta| m.max_term_freq) == block_metas_spec(
                self.postings_view()[field@][term@],
            ),
    {
        proof {
            use_type_invariant(self);
        }
        let fp = match self.fields.get(field) {
            Some(fp) => fp,
            None => return None,
        };
        fp.lookup_block_metas(term)
    }

    /// The fields, in order.
    pub fn field_names(&self) -> (r: Vec<String>)
        ensures
            string_views(r@) == self.field_list(),
            sorted_names(string_views(r@)),
            string_views(r@).to_set() == self.postings_view().dom(),
    {
        proof {
            use_type_invariant(self);
        }
        let keys = self.fields.keys();
        let mut out: Vec<String> = Vec::new();
        let mut i: usize = 0;
        while i < keys.len()
            invariant
                i <= keys@.len(),
                string_views(out@) == crate::string_map::str_views(keys@).subrange(0, i as int),
            decreases keys.len() - i,
        {
            let ghost before = out@;
            out.push(keys[i].to_owned());
            proof {
                assert(string_views(before).len() == before.len());
                assert(crate::string_map::str_views(keys@)[i as int] == keys@[i as int]@);
                assert(string_views(out@) =~= crate::string_map::str_views(keys@).subrange(0, i + 1));
            }
            i += 1;
        }
        proof {
            assert(crate::string_map::str_views(keys@).subrange(0, i as int) =~= crate::string_map::str_views(keys@));
            assert(self.postings_view().dom() =~= self.fields.map().dom());
        }
        out
    }

    /// The doc ids, each once and ascending, of every term of `field` that
    /// starts with `prefix`; none for an unknown field.
    pub fn prefix_doc_ids(&self, field: &str, prefix: &str) -> (r: Vec<u32>)
        ensures
            ascending(r@),
            forall|d: u32|
                r@.contains(d) <==> (self.postings_view().contains_key(field@) && exists|t: Seq<char>|
                    #[trigger] self.postings_view()[field@].contains_key(t) && has_prefix(
                        encode_utf8(prefix@),
                        encode_utf8(t),
                    ) && doc_ids_of(self.postings_view()[field@][t]).contains(d)),
    {
        proof {
            use_type_invariant(self);
        }
        let fp = match self.fields.get(field) {
            Some(fp) => fp,
            None => return Vec::new(),
        };
        let r = fp.collect_prefix_doc_ids(prefix.as_bytes());
        proof {
            fp.lemma_terms();
            let tm = fp.term_map();
            let t = fp.term_seq();
            assert(self.postings_view().contains_key(field@));
            assert(self.postings_view()[field@] == tm);
            assert forall|d: u32| r@.contains(d) <==> exists|k: Seq<char>|
                #[trigger] tm.contains_key(k) && has_prefix(encode_utf8(prefix@), encode_utf8(k)) && doc_ids_of(
                    tm[k],
                ).contains(d) by {
                if r@.contains(d) {
                    let i = choose|i: int|
                        0 <= i < fp.terms@.len() && has_prefix(encode_utf8(prefix@), encode_utf8(#[trigger] fp.terms@[i]))
                            && doc_ids_of(fp.lists@[i]).contains(d);
                    assert(tm.contains_key(t[i]));
                }
                if exists|k: Seq<char>|
                    #[trigger] tm.contains_key(k) && has_prefix(encode_utf8(prefix@), encode_utf8(k)) && doc_ids_of(
                        tm[k],
                    ).contains(d) {
                    let k = choose|k: Seq<char>|
                        #[trigger] tm.contains_key(k) && has_prefix(encode_utf8(prefix@), encode_utf8(k)) && doc_ids_of(
                            tm[k],
                        ).contains(d);
                    assert(t.to_set().contains(k));
                    let i = choose|i: int| 0 <= i < t.len() && t[i] == k;
                    assert(tm[t[i]] == fp.list_seq()[i]);
                }
            }
        }
        r
    }
}


// ----- sizes -----

/// The block statistics of the first `n` lists, counted.
pub open spec fn blocks_total(l: Seq<Seq<Posting>>, n: nat) -> nat
    decreases n,
{
    if n == 0 {
        0
    } else {
        blocks_total(l, (n - 1) as nat) + block_metas_spec(l[n - 1]).len()
    }
}

/// The postings of the first `n` lists, counted.
pub open spec fn postings_total(l: Seq<Seq<Posting>>, n: nat) -> nat
    decreases n,
{
    if n == 0 {
        0
    } else {
        postings_total(l, (n - 1) as nat) + l[n - 1].len()
    }
}

/// The UTF-8 bytes of the first `n` terms, counted.
pub open spec fn term_bytes_total(t: Seq<Seq<char>>, n: nat) -> nat
    decreases n,
{
    if n == 0 {
        0
    } else {
        term_bytes_total(t, (n - 1) as nat) + encode_utf8(t[n - 1]).len()
    }
}

/// `v`, or `u64::MAX` above it.
pub open spec fn sat(v: int) -> u64 {
    if v > u64::MAX {
        u64::MAX
    } else if v < 0 {
        0
    } else {
        v as u64
    }
}

impl FieldPostings {
    proof fn lemma_prefix_totals(&self, k: int)
        requires
            self.wf(),
            0 <= k <= self.terms@.len(),
        ensures
            self.block_offsets@[k] == blocks_total(self.lists@, k as nat),
            self.offsets@[k] == postings_total(self.lists@, k as nat),
        decreases k,
    {
        if k > 0 {
            let n = self.terms@.len();
            let l = self.lists@;
            let j = k - 1;
            self.lemma_prefix_totals(j);
            assert(self.block_offsets@[j] <= self.block_offsets@[j + 1]);
            assert(self.block_offsets@[j + 1] <= self.block_offsets@[n as int]);
            assert(self.offsets@[j] <= self.offsets@[j + 1]);
            assert(self.offsets@[j + 1] <= self.offsets@[n as int]);
            let bs = self.block_metas_flat@.subrange(self.block_offsets@[j] as int, self.block_offsets@[j + 1] as int);
            assert(bs.map_values(|b: BlockMeta| b.max_term_freq) == block_metas_spec(l[j]));
            assert(bs.map_values(|b: BlockMeta| b.max_term_freq).len() == bs.len());
            let ds = self.doc_ids_flat@.subrange(self.offsets@[j] as int, self.offsets@[j + 1] as int);
            assert(ds == doc_ids_of(l[j]));
            assert(doc_ids_of(l[j]).len() == l[j].len());
        }
    }

    proof fn lemma_flat_lengths(&self)
        requires
            self.wf(),
        ensures
            self.block_metas_flat@.len() == blocks_total(self.lists@, self.lists@.len()),
            self.doc_ids_flat@.len() == postings_total(self.lists@, self.lists@.len()),
    {
        self.lemma_prefix_totals(self.terms@.len() as int);
    }

    /// The byte length of the field's serialized FST.
    fn fst_byte_len(&self) -> (r: usize)
        requires
            self.wf(),
        ensures
            r == fst_encoded_len(term_entries(self.terms@)),
    {
        fst_map_byte_len(&self.fst)
    }

    /// How many block statistics the field stores.
    fn block_meta_count(&self) -> (r: usize)
        requires
            self.wf(),
        ensures
            r == blocks_total(self.lists@, self.lists@.len()),
    {
        proof {
            self.lemma_flat_lengths();
        }
        self.block_metas_flat.len()
    }

    /// The bytes of the field's postings: each term's UTF-8 bytes and four
    /// bytes per doc id and per frequency; `u64::MAX` past it.
    fn postings_byte_count(&self) -> (r: u64)
        requires
            self.wf(),
        ensures
            r == sat((term_bytes_total(self.terms@, self.terms@.len()) + 8 * postings_total(
                self.lists@,
                self.lists@.len(),
            )) as int),
    {
        broadcast use vstd::layout::layout_of_primitives;

        proof {
            self.lemma_flat_lengths();
        }
        let entries = fst_map_stream(&self.fst);
        let ghost t = self.terms@;
        proof {
            assert(entries@.map_values(|e: (Vec<u8>, u64)| (e.0@, e.1)).len() == entries@.len());
            assert(term_entries(t).len() == t.len());
        }
        let mut term_bytes: u64 = 0;
        let mut i: usize = 0;
        while i < entries.len()
            invariant
                i <= entries@.len(),
                entries@.map_values(|e: (Vec<u8>, u64)| (e.0@, e.1)) == term_entries(t),
                entries@.len() == t.len(),
                term_bytes == sat(term_bytes_total(t, i as nat) as int),
            decreases entries.len() - i,
        {
            proof {
                assert(entries@.map_values(|e: (Vec<u8>, u64)| (e.0@, e.1))[i as int] == term_entries(t)[i as int]);
            }
            term_bytes = term_bytes.saturating_add(entries[i].0.len() as u64);
            i += 1;
        }
        let size = std::mem::size_of::<u32>() as u64;
        assert(self.doc_ids_flat@.len() == self.offsets@[self.terms@.len() as int]);
        let ids = (self.doc_ids_flat.len() as u64) * size;
        let freqs = (self.freqs_flat.len() as u64) * size;
        term_bytes.saturating_add(ids).saturating_add(freqs)
    }
}


/// `a + b` saturated, for saturated `a` and `b`.
fn add_sat(a: u64, b: u64) -> (r: u64)
    ensures
        r == sat(a + b),
{
    a.saturating_add(b)
}

proof fn lemma_sat_add(x: int, y: int)
    requires
        x >= 0,
        y >= 0,
    ensures
        sat(sat(x) + sat(y)) == sat(x + y),
{
}

impl TermDictionary {
    /// The postings of `field`'s terms, in term order.
    pub open spec fn field_lists(&self, field: Seq<char>) -> Seq<Seq<Posting>> {
        self.field_terms(field).map_values(|t: Seq<char>| self.postings_view()[field][t])
    }

    /// `cost` of the terms and postings of each of the first `n` fields,
    /// summed.
    pub open spec fn fields_total(
        &self,
        n: nat,
        cost: spec_fn(Seq<Seq<char>>, Seq<Seq<Posting>>) -> nat,
    ) -> nat
        decreases n,
    {
        if n == 0 {
            0
        } else {
            self.fields_total((n - 1) as nat, cost) + cost(
                self.field_terms(self.field_list()[n - 1]),
                self.field_lists(self.field_list()[n - 1]),
            )
        }
    }

    proof fn lemma_field_at(&self, i: int)
        requires
            self.inv(),
            0 <= i < self.fields.entry_seq().len(),
        ensures
            self.fields.entry_seq()[i].1.wf(),
            self.field_list()[i] == self.fields.entry_seq()[i].0@,
            self.field_terms(self.field_list()[i]) == self.fields.entry_seq()[i].1.term_seq(),
            self.field_lists(self.field_list()[i]) == self.fields.entry_seq()[i].1.list_seq(),
    {
        self.fields.lemma_entries();
        let f = self.field_list()[i];
        let fp = self.fields.entry_seq()[i].1;
        assert(self.fields.map()[f] == fp);
        fp.lemma_terms();
        assert(self.postings_view()[f] == fp.term_map());
        assert(self.field_lists(f) =~= fp.list_seq());
    }

    /// The bytes of the fields' serialized FSTs, summed; `u64::MAX` past it.
    pub fn fst_bytes(&self) -> (r: u64)
        ensures
            r == sat(
                self.fields_total(
                    self.field_list().len(),
                    |t: Seq<Seq<char>>, l: Seq<Seq<Posting>>| fst_encoded_len(term_entries(t)),
                ) as int,
            ),
    {
        proof {
            use_type_invariant(self);
            self.fields.lemma_entries();
        }
        let ghost cost = |t: Seq<Seq<char>>, l: Seq<Seq<Posting>>| fst_encoded_len(term_entries(t));
        let entries = self.fields.entries();
        let mut total: u64 = 0;
        let mut i: usize = 0;
        while i < entries.len()
            invariant
                self.inv(),
                entries@ == self.fields.entry_seq(),
                entries@.len() == self.field_list().len(),
                i <= entries@.len(),
                cost == (|t: Seq<Seq<char>>, l: Seq<Seq<Posting>>| fst_encoded_len(term_entries(t))),
                total == sat(self.fields_total(i as nat, cost) as int),
            decreases entries.len() - i,
        {
            proof {
                self.lemma_field_at(i as int);
                lemma_sat_add(self.fields_total(i as nat, cost) as int, cost(
                    self.field_terms(self.field_list()[i as int]),
                    self.field_lists(self.field_list()[i as int]),
                ) as int);
            }
            let len = entries[i].1.fst_byte_len() as u64;
            proof {
                let f = self.field_list()[i as int];
                assert(self.fields_total((i + 1) as nat, cost) == self.fields_total(i as nat, cost) + cost(
                    self.field_terms(f),
                    self.field_lists(f),
                ));
                assert(cost(self.field_terms(f), self.field_lists(f)) == len);
            }
            total = add_sat(total, len);
            i += 1;
        }
        total
    }

    /// The bytes of the block statistics of every field, at the size of a
    /// [`BlockMeta`] each; `u64::MAX` past it.
    pub fn block_metas_bytes(&self) -> (r: u64)
        ensures
            r == sat(
                self.fields_total(
                    self.field_list().len(),
                    |t: Seq<Seq<char>>, l: Seq<Seq<Posting>>|
                        blocks_total(l, l.len()) * vstd::layout::size_of::<BlockMeta>(),
                ) as int,
            ),
    {
        proof {
            use_type_invariant(self);
            self.fields.lemma_entries();
        }
        let ghost cost = |t: Seq<Seq<char>>, l: Seq<Seq<Posting>>|
            blocks_total(l, l.len()) * vstd::layout::size_of::<BlockMeta>();
        let size = std::mem::size_of::<BlockMeta>() as u128;
        let entries = self.fields.entries();
        let mut total: u64 = 0;
        let mut i: usize = 0;
        while i < entries.len()
            invariant
                self.inv(),
                entries@ == self.fields.entry_seq(),
                entries@.len() == self.field_list().len(),
                size == vstd::layout::size_of::<BlockMeta>(),
                size <= 0xFFFF_FFFF_FFFF_FFFFu128,
                cost == (|t: Seq<Seq<char>>, l: Seq<Seq<Posting>>|
                    blocks_total(l, l.len()) * vstd::layout::size_of::<BlockMeta>()),
                i <= entries@.len(),
                total == sat(self.fields_total(i as nat, cost) as int),
            decreases entries.len() - i,
        {
            proof {
                self.lemma_field_at(i as int);
                lemma_sat_add(self.fields_total(i as nat, cost) as int, cost(
                    self.field_terms(self.field_list()[i as int]),
                    self.field_lists(self.field_list()[i as int]),
                ) as int);
            }
            let count = entries[i].1.block_meta_count() as u128;
            assert(count * size <= 0xFFFF_FFFF_FFFF_FFFF * 0xFFFF_FFFF_FFFF_FFFFu128) by (nonlinear_arith)
                requires
                    count <= 0xFFFF_FFFF_FFFF_FFFF,
                    size <= 0xFFFF_FFFF_FFFF_FFFF,
            ;
            let product = count * size;
            proof {
                let f = self.field_list()[i as int];
                assert(self.fields_total((i + 1) as nat, cost) == self.fields_total(i as nat, cost) + cost(
                    self.field_terms(f),
                    self.field_lists(f),
                ));
                assert(cost(self.field_terms(f), self.field_lists(f)) == product);
            }
            let bytes: u64 = if product > 0xFFFF_FFFF_FFFF_FFFFu128 {
                u64::MAX
            } else {
                product as u64
            };
            total = add_sat(total, bytes);
            i += 1;
        }
        total
    }

    /// The bytes of every field's postings: each term's UTF-8 bytes and
    /// four bytes per doc id and per frequency; `u64::MAX` past it.
    pub fn postings_bytes(&self) -> (r: u64)
        ensures
            r == sat(
                self.fields_total(
                    self.field_list().len(),
                    |t: Seq<Seq<char>>, l: Seq<Seq<Posting>>|
                        term_bytes_total(t, t.len()) + 8 * postings_total(l, l.len()),
                ) as int,
            ),
    {
        proof {
            use_type_invariant(self);
            self.fields.lemma_entries();
        }
        let ghost cost = |t: Seq<Seq<char>>, l: Seq<Seq<Posting>>|
            term_bytes_total(t, t.len()) + 8 * postings_total(l, l.len());
        let entries = self.fields.entries();
        let mut total: u64 = 0;
        let mut i: usize = 0;
        while i < entries.len()
            invariant
                self.inv(),
                entries@ == self.fields.entry_seq(),
                entries@.len() == self.field_list().len(),
                i <= entries@.len(),
                cost == (|t: Seq<Seq<char>>, l: Seq<Seq<Posting>>|
                    term_bytes_total(t, t.len()) + 8 * postings_total(l, l.len())),
                total == sat(self.fields_total(i as nat, cost) as int),
            decreases entries.len() - i,
        {
            proof {
                self.lemma_field_at(i as int);
                lemma_sat_add(self.fields_total(i as nat, cost) as int, cost(
                    self.field_terms(self.field_list()[i as int]),
                    self.field_lists(self.field_list()[i as int]),
                ) as int);
            }
            let bytes = entries[i].1.postings_byte_count();
            proof {
                let f = self.field_list()[i as int];
                assert(self.fields_total((i + 1) as nat, cost) == self.fields_total(i as nat, cost) + cost(
                    self.field_terms(f),
                    self.field_lists(f),
                ));
                assert(sat(cost(self.field_terms(f), self.field_lists(f)) as int) == bytes);
            }
            total = add_sat(total, bytes);
            i += 1;
        }
        total
    }
}


// ----- merging dictionaries -----

/// The postings of `t` in the first `n` parts, one part after the other.
pub open spec fn concat_parts(parts: Seq<&FieldPostings>, n: nat, t: Seq<char>) -> Seq<Posting>
    decreases n,
{
    if n == 0 {
        Seq::empty()
    } else {
        concat_parts(parts, (n - 1) as nat, t) + if parts[n - 1].term_map().contains_key(t) {
            parts[n - 1].term_map()[t]
        } else {
            Seq::empty()
        }
    }
}

/// The terms of the first `n` parts, counted.
pub open spec fn parts_terms(parts: Seq<&FieldPostings>, n: nat) -> nat
    decreases n,
{
    if n == 0 {
        0
    } else {
        parts_terms(parts, (n - 1) as nat) + parts[n - 1].term_seq().len()
    }
}

/// The postings of the first `n` parts, counted.
pub open spec fn parts_postings(parts: Seq<&FieldPostings>, n: nat) -> nat
    decreases n,
{
    if n == 0 {
        0
    } else {
        parts_postings(parts, (n - 1) as nat) + postings_total(
            parts[n - 1].list_seq(),
            parts[n - 1].list_seq().len(),
        )
    }
}

/// The postings of the first `n` parts up to their cursors, counted.
spec fn cursor_postings(parts: Seq<&FieldPostings>, cursors: Seq<int>, n: nat) -> int
    decreases n,
{
    if n == 0 {
        0
    } else {
        cursor_postings(parts, cursors, (n - 1) as nat) + postings_total(
            parts[n - 1].list_seq(),
            cursors[n - 1] as nat,
        )
    }
}

/// The first `n` cursors, summed.
spec fn cursor_count(cursors: Seq<int>, n: nat) -> int
    decreases n,
{
    if n == 0 {
        0
    } else {
        cursor_count(cursors, (n - 1) as nat) + cursors[n - 1]
    }
}

proof fn lemma_cursor_step(parts: Seq<&FieldPostings>, cursors: Seq<int>, p: int, n: nat)
    requires
        0 <= p < n <= cursors.len(),
        0 <= cursors[p] < parts[p].list_seq().len(),
    ensures
        cursor_postings(parts, cursors.update(p, cursors[p] + 1), n) == cursor_postings(parts, cursors, n)
            + parts[p].list_seq()[cursors[p]].len(),
        cursor_count(cursors.update(p, cursors[p] + 1), n) == cursor_count(cursors, n) + 1,
    decreases n,
{
    let c2 = cursors.update(p, cursors[p] + 1);
    if p < n - 1 {
        lemma_cursor_step(parts, cursors, p, (n - 1) as nat);
    } else {
        lemma_cursor_same(parts, cursors, c2, (n - 1) as nat);
    }
}

proof fn lemma_cursor_same(parts: Seq<&FieldPostings>, a: Seq<int>, b: Seq<int>, n: nat)
    requires
        n <= a.len(),
        n <= b.len(),
        forall|q: int| 0 <= q < n ==> a[q] == b[q],
    ensures
        cursor_postings(parts, a, n) == cursor_postings(parts, b, n),
        cursor_count(a, n) == cursor_count(b, n),
    decreases n,
{
    if n > 0 {
        lemma_cursor_same(parts, a, b, (n - 1) as nat);
    }
}

proof fn lemma_postings_total_mono(l: Seq<Seq<Posting>>, c: nat, n: nat)
    requires
        c <= n <= l.len(),
    ensures
        postings_total(l, c) <= postings_total(l, n),
    decreases n - c,
{
    if c < n {
        lemma_postings_total_mono(l, c, (n - 1) as nat);
    }
}

proof fn lemma_cursor_bounds(parts: Seq<&FieldPostings>, cursors: Seq<int>, n: nat)
    requires
        n <= parts.len(),
        n <= cursors.len(),
        forall|q: int| 0 <= q < n ==> 0 <= #[trigger] cursors[q] <= parts[q].term_seq().len(),
        forall|q: int| 0 <= q < n ==> (#[trigger] parts[q]).list_seq().len() == parts[q].term_seq().len(),
    ensures
        0 <= cursor_postings(parts, cursors, n) <= parts_postings(parts, n),
        0 <= cursor_count(cursors, n) <= parts_terms(parts, n),
    decreases n,
{
    if n > 0 {
        lemma_cursor_bounds(parts, cursors, (n - 1) as nat);
        let q = n - 1;
        assert(0 <= cursors[q] <= parts[q].term_seq().len());
        lemma_postings_total_mono(parts[q].list_seq(), cursors[q] as nat, parts[q].list_seq().len());
    }
}

proof fn lemma_cursor_zero(parts: Seq<&FieldPostings>, cursors: Seq<int>, n: nat)
    requires
        n <= cursors.len(),
        forall|q: int| 0 <= q < n ==> #[trigger] cursors[q] == 0,
    ensures
        cursor_postings(parts, cursors, n) == 0,
        cursor_count(cursors, n) == 0,
    decreases n,
{
    if n > 0 {
        lemma_cursor_zero(parts, cursors, (n - 1) as nat);
    }
}


/// `c` counts the terms of `t` whose bytes are below `key`: they come
/// first, the others follow.
spec fn below_cursor(t: Seq<Seq<char>>, c: int, key: Seq<u8>) -> bool {
    &&& 0 <= c <= t.len()
    &&& forall|i: int| 0 <= i < c ==> bytes_lt(#[trigger] encode_utf8(t[i]), key)
    &&& forall|i: int| c <= i < t.len() ==> !bytes_lt(#[trigger] encode_utf8(t[i]), key)
}

proof fn lemma_cursor_hit(t: Seq<Seq<char>>, c: int, v: int)
    requires
        sorted_names(t),
        0 <= v < t.len(),
        below_cursor(t, c, encode_utf8(t[v])),
    ensures
        v == c,
{
    lemma_bytes_lt_irreflexive(encode_utf8(t[v]));
    if v > c {
        lemma_utf8_order(t[c], t[v]);
    }
}

proof fn lemma_cursor_next(t: Seq<Seq<char>>, c: int, key: Seq<u8>, next: Seq<u8>, hit: bool)
    requires
        sorted_names(t),
        below_cursor(t, c, key),
        bytes_lt(key, next),
        hit <==> exists|v: int| 0 <= v < t.len() && encode_utf8(t[v]) == key,
        forall|i: int| 0 <= i < t.len() ==> !(bytes_lt(key, #[trigger] encode_utf8(t[i])) && bytes_lt(encode_utf8(t[i]), next)),
    ensures
        below_cursor(t, if hit { c + 1 } else { c }, next),
{
    let c2 = if hit { c + 1 } else { c };
    if hit {
        let v = choose|v: int| 0 <= v < t.len() && encode_utf8(t[v]) == key;
        lemma_cursor_hit(t, c, v);
    }
    assert forall|i: int| 0 <= i < c2 implies bytes_lt(#[trigger] encode_utf8(t[i]), next) by {
        if i < c {
            lemma_bytes_lt_transitive(encode_utf8(t[i]), key, next);
        }
    }
    assert forall|i: int| c2 <= i < t.len() implies !bytes_lt(#[trigger] encode_utf8(t[i]), next) by {
        lemma_bytes_lt_total(encode_utf8(t[i]), key);
        if encode_utf8(t[i]) == key {
            let v = choose|v: int| 0 <= v < t.len() && encode_utf8(t[v]) == key;
            lemma_cursor_hit(t, c, v);
            lemma_encode_injective(t[i], t[v]);
            lemma_lex_irreflexive(t[i]);
            if i > v {
                assert(lex_lt(t[v], t[i]));
            }
        }
    }
}

impl FieldPostings {
    /// The doc ids and frequencies of the term with ordinal `i`.
    fn postings_at(&self, i: usize) -> (r: (&[u32], &[u32]))
        requires
            self.wf(),
            i < self.terms@.len(),
        ensures
            r.0@ == doc_ids_of(self.lists@[i as int]),
            r.1@ == freqs_of(self.lists@[i as int]),
    {
        let start = self.offsets[i] as usize;
        let end = self.offsets[i + 1] as usize;
        proof {
            assert(self.offsets@[i as int] <= self.offsets@[i + 1]);
            assert(self.offsets@[i + 1] <= self.offsets@[self.terms@.len() as int]);
            assert(self.doc_ids_flat@.subrange(start as int, end as int) == doc_ids_of(self.lists@[i as int]));
            assert(self.freqs_flat@.subrange(start as int, end as int) == freqs_of(self.lists@[i as int]));
        }
        (
            vstd::slice::slice_subrange(self.doc_ids_flat.as_slice(), start, end),
            vstd::slice::slice_subrange(self.freqs_flat.as_slice(), start, end),
        )
    }
}


/// The union items of `srcs`, `iv`, have no key of a source strictly
/// between two consecutive items, nor below the first one.
proof fn lemma_union_gaps(iv: Seq<(Seq<u8>, Seq<(usize, u64)>)>, srcs: Seq<Seq<(Seq<u8>, u64)>>, q: int, i: int, x: int)
    requires
        is_union_of(iv, srcs),
        0 <= q < srcs.len(),
        0 <= i < srcs[q].len(),
        0 <= x < iv.len(),
    ensures
        x + 1 < iv.len() ==> !(bytes_lt(iv[x].0, srcs[q][i].0) && bytes_lt(srcs[q][i].0, iv[x + 1].0)),
        x == 0 ==> !bytes_lt(srcs[q][i].0, iv[0].0),
{
    let e = srcs[q][i].0;
    let z = choose|z: int| 0 <= z < iv.len() && #[trigger] iv[z].0 == e;
    assert(iv[z].0 == e);
    lemma_bytes_lt_irreflexive(e);
    if x + 1 < iv.len() && bytes_lt(iv[x].0, e) && bytes_lt(e, iv[x + 1].0) {
        if z < x {
            assert(bytes_lt(iv[z].0, iv[x].0));
            lemma_bytes_lt_asymmetric(iv[z].0, iv[x].0);
        } else if z > x + 1 {
            assert(bytes_lt(iv[x + 1].0, iv[z].0));
            lemma_bytes_lt_asymmetric(iv[z].0, iv[x + 1].0);
        }
    }
    if x == 0 && bytes_lt(e, iv[0].0) {
        if z > 0 {
            assert(bytes_lt(iv[0].0, iv[z].0));
            lemma_bytes_lt_asymmetric(iv[z].0, iv[0].0);
        }
    }
}

impl FieldPostings {
    /// The postings of one field kept by several parts, merged: the union
    /// of the parts' terms (one union stream over their FSTs), and for each
    /// term the parts' postings of it, one part after the other.
    fn merge_parts(parts: &[&FieldPostings]) -> (r: FieldPostings)
        requires
            forall|p: int| 0 <= p < parts@.len() ==> (#[trigger] parts@[p]).wf(),
            forall|t: Seq<char>| doc_ids_ascending(#[trigger] concat_parts(parts@, parts@.len(), t)),
            parts_terms(parts@, parts@.len()) <= u32::MAX,
            parts_postings(parts@, parts@.len()) <= u32::MAX,
        ensures
            r.wf(),
            forall|t: Seq<char>|
                #[trigger] r.term_map().contains_key(t) <==> exists|p: int|
                    0 <= p < parts@.len() && #[trigger] parts@[p].term_map().contains_key(t),
            forall|t: Seq<char>|
                #[trigger] r.term_map().contains_key(t) ==> r.term_map()[t] == concat_parts(parts@, parts@.len(), t),
    {
        let k = parts.len();
        let ghost ps = parts@;
        let mut maps: Vec<&fst::Map<Vec<u8>>> = Vec::new();
        let mut j: usize = 0;
        while j < k
            invariant
                j <= k,
                k == ps.len(),
                ps == parts@,
                maps@.len() == j,
                forall|q: int| 0 <= q < j ==> *(#[trigger] maps@[q]) == ps[q].fst,
            decreases k - j,
        {
            maps.push(&parts[j].fst);
            j += 1;
        }
        let items = fst_union(maps.as_slice());
        let ghost srcs = maps@.map_values(|m: &fst::Map<Vec<u8>>| fst_map_entries(*m));
        let ghost iv = items@.map_values(|e: (Vec<u8>, Vec<(usize, u64)>)| (e.0@, e.1@));
        proof {
            assert(srcs.len() == k);
            assert(iv.len() == items@.len());
            assert forall|q: int| 0 <= q < k implies #[trigger] srcs[q] == term_entries(ps[q].terms@) by {
                assert(*maps@[q] == ps[q].fst);
            }
        }
        let mut entries: Vec<(Vec<u8>, Vec<Posting>)> = Vec::new();
        let ghost mut names: Seq<Seq<char>> = Seq::empty();
        let ghost mut cursors: Seq<int> = Seq::new(k as nat, |q: int| 0int);
        proof {
            lemma_cursor_zero(ps, cursors, k as nat);
            if iv.len() > 0 {
                assert forall|q: int| 0 <= q < k implies below_cursor(ps[q].terms@, #[trigger] cursors[q], iv[0].0) by {
                    let t = ps[q].terms@;
                    assert forall|i: int| 0 <= i < t.len() implies !bytes_lt(#[trigger] encode_utf8(t[i]), iv[0].0) by {
                        assert(srcs[q][i].0 == encode_utf8(t[i]));
                        lemma_union_gaps(iv, srcs, q, i, 0);
                    }
                }
            }
        }
        let mut x: usize = 0;
        while x < items.len()
            invariant
                k == ps.len(),
                ps == parts@,
                forall|p: int| 0 <= p < k ==> (#[trigger] ps[p]).wf(),
                srcs.len() == k,
                forall|q: int| 0 <= q < k ==> #[trigger] srcs[q] == term_entries(ps[q].terms@),
                iv == items@.map_values(|e: (Vec<u8>, Vec<(usize, u64)>)| (e.0@, e.1@)),
                iv.len() == items@.len(),
                is_union_of(iv, srcs),
                parts_terms(ps, k as nat) <= u32::MAX,
                parts_postings(ps, k as nat) <= u32::MAX,
                x <= items@.len(),
                entries@.len() == x,
                names.len() == x,
                cursors.len() == k,
                forall|q: int| 0 <= q < k ==> 0 <= #[trigger] cursors[q] <= ps[q].terms@.len(),
                x < items@.len() ==> forall|q: int|
                    0 <= q < k ==> below_cursor(ps[q].terms@, #[trigger] cursors[q], iv[x as int].0),
                forall|y: int|
                    0 <= y < x ==> (#[trigger] entries@[y]).0@ == iv[y].0 && iv[y].0 == encode_utf8(names[y]),
                forall|y: int| 0 <= y < x ==> (#[trigger] entries@[y]).1@ == concat_parts(ps, k as nat, names[y]),
                list_total(entries@, x as nat) == cursor_postings(ps, cursors, k as nat),
                x <= cursor_count(cursors, k as nat),
            decreases items.len() - x,
        {
            let ghost key = iv[x as int].0;
            let ghost vals = iv[x as int].1;
            let ghost p0 = vals[0].0 as int;
            let ghost name: Seq<char>;
            proof {
                assert(iv[x as int] == (items@[x as int].0@, items@[x as int].1@));
                assert(holds_entry(srcs[p0], key, vals[0].1));
                let i0 = choose|i: int| 0 <= i < srcs[p0].len() && #[trigger] srcs[p0][i].0 == key && srcs[p0][i].1 == vals[0].1;
                name = ps[p0].terms@[i0];
                assert(encode_utf8(name) == key);
            }
            let ghost cur0 = cursors;
            let mut list: Vec<Posting> = Vec::new();
            let mut p: usize = 0;
            while p < k
                invariant
                    k == ps.len(),
                    ps == parts@,
                    forall|p: int| 0 <= p < k ==> (#[trigger] ps[p]).wf(),
                    srcs.len() == k,
                    forall|q: int| 0 <= q < k ==> #[trigger] srcs[q] == term_entries(ps[q].terms@),
                    is_union_of(iv, srcs),
                    iv.len() == items@.len(),
                    iv == items@.map_values(|e: (Vec<u8>, Vec<(usize, u64)>)| (e.0@, e.1@)),
                    x < items@.len(),
                    key == iv[x as int].0,
                    vals == iv[x as int].1,
                    encode_utf8(name) == key,
                    0 <= p0 < k,
                    vals.len() > 0,
                    p0 == vals[0].0 as int,
                    p <= k,
                    cursors.len() == k,
                    cur0.len() == k,
                    forall|q: int| 0 <= q < k ==> 0 <= #[trigger] cur0[q] <= ps[q].terms@.len(),
                    forall|q: int| 0 <= q < k ==> below_cursor(ps[q].terms@, #[trigger] cur0[q], key),
                    forall|q: int| p <= q < k ==> #[trigger] cursors[q] == cur0[q],
                    forall|q: int|
                        0 <= q < p ==> #[trigger] cursors[q] == cur0[q] + if ps[q].term_map().contains_key(name) {
                            1int
                        } else {
                            0int
                        },
                    list@ == concat_parts(ps, p as nat, name),
                    list_total(entries@, x as nat) + list@.len() == cursor_postings(ps, cursors, k as nat),
                    cursor_count(cursors, k as nat) >= x + if p > p0 {
                        1int
                    } else {
                        0int
                    },
                decreases k - p,
            {
                let values = &items[x].1;
                let mut found: Option<u64> = None;
                let mut q: usize = 0;
                while q < values.len()
                    invariant
                        values@ == vals,
                        q <= vals.len(),
                        found is None ==> forall|r: int| 0 <= r < q ==> (#[trigger] vals[r]).0 != p,
                        found matches Some(v) ==> exists|r: int| 0 <= r < vals.len() && #[trigger] vals[r] == (p, v),
                    decreases values.len() - q,
                {
                    if found.is_none() && values[q].0 == p {
                        found = Some(values[q].1);
                        proof {
                            assert(vals[q as int] == (p, values@[q as int].1));
                        }
                    }
                    q += 1;
                }
                let ghost t = ps[p as int].terms@;
                match found {
                    Some(v) => {
                        let ghost r = choose|r: int| 0 <= r < vals.len() && #[trigger] vals[r] == (p, v);
                        proof {
                            assert(holds_entry(srcs[p as int], key, v));
                            let i = choose|i: int|
                                0 <= i < srcs[p as int].len() && #[trigger] srcs[p as int][i].0 == key && srcs[p as int][i].1 == v;
                            assert(i == v);
                            lemma_encode_injective(t[i], name);
                            lemma_cursor_hit(t, cur0[p as int], i);
                            ps[p as int].lemma_position(i);
                        }
                        let idx = v as usize;
                        let (ids, fs) = parts[p].postings_at(idx);
                        let ghost piece = ps[p as int].lists@[idx as int];
                        let ghost before = list@;
                        let mut m: usize = 0;
                        while m < ids.len()
                            invariant
                                ids@ == doc_ids_of(piece),
                                fs@ == freqs_of(piece),
                                m <= piece.len(),
                                list@ == before + piece.subrange(0, m as int),
                            decreases ids.len() - m,
                        {
                            list.push(Posting { doc_id: ids[m], freq: fs[m] });
                            proof {
                                assert(piece[m as int] == Posting { doc_id: ids@[m as int], freq: fs@[m as int] });
                            }
                            m += 1;
                            assert(list@ =~= before + piece.subrange(0, m as int));
                        }
                        proof {
                            assert(piece.subrange(0, m as int) =~= piece);
                            assert(cursors[p as int] == cur0[p as int]);
                            assert(ps[p as int].lists@.len() == t.len());
                            lemma_cursor_step(ps, cursors, p as int, k as nat);
                            cursors = cursors.update(p as int, cursors[p as int] + 1);
                        }
                    },
                    None => {
                        proof {
                            if ps[p as int].term_map().contains_key(name) {
                                let i = choose|i: int| 0 <= i < t.len() && #[trigger] t[i] == name;
                                assert(srcs[p as int][i].0 == key);
                                assert(holds_key(srcs[p as int], iv[x as int].0));
                                let r = choose|r: int| 0 <= r < vals.len() && vals[r].0 == p;
                                assert(vals[r].0 != p);
                            }
                            if p as int == p0 {
                                assert(vals[0].0 == p);
                            }
                        }
                    },
                }
                p += 1;
            }
            let key_vec = vstd::slice::slice_to_vec(items[x].0.as_slice());
            let ghost entries_before = entries@;
            entries.push((key_vec, list));
            proof {
                lemma_list_total_prefix(entries@, entries_before, x as nat);
                names = names.push(name);
                assert(entries@[x as int].0@ == items@[x as int].0@);
                assert(entries@[x as int].0@ == iv[x as int].0);
                assert forall|q: int| 0 <= q < k implies 0 <= #[trigger] cursors[q] <= ps[q].terms@.len() by {
                    let t = ps[q].terms@;
                    if ps[q].term_map().contains_key(name) {
                        let v = choose|v: int| 0 <= v < t.len() && #[trigger] t[v] == name;
                        assert(below_cursor(t, cur0[q], key));
                        lemma_cursor_hit(t, cur0[q], v);
                    }
                }
                assert forall|y: int| 0 <= y < x + 1 implies (#[trigger] entries@[y]).0@ == iv[y].0 && iv[y].0
                    == encode_utf8(names[y]) by {
                    if y < x {
                        assert(entries@[y] == entries_before[y]);
                    }
                }
                assert forall|y: int| 0 <= y < x + 1 implies (#[trigger] entries@[y]).1@ == concat_parts(
                    ps,
                    k as nat,
                    names[y],
                ) by {
                    if y < x {
                        assert(entries@[y] == entries_before[y]);
                    }
                }
                if x + 1 < items@.len() {
                    assert(bytes_lt(iv[x as int].0, iv[x + 1].0));
                    assert forall|q: int| 0 <= q < k implies below_cursor(ps[q].terms@, #[trigger] cursors[q], iv[x + 1].0) by {
                        let t = ps[q].terms@;
                        let hit = ps[q].term_map().contains_key(name);
                        assert(hit <==> exists|v: int| 0 <= v < t.len() && encode_utf8(t[v]) == key) by {
                            if hit {
                                let v = choose|v: int| 0 <= v < t.len() && #[trigger] t[v] == name;
                                assert(encode_utf8(t[v]) == key);
                            }
                            if exists|v: int| 0 <= v < t.len() && encode_utf8(t[v]) == key {
                                let v = choose|v: int| 0 <= v < t.len() && encode_utf8(t[v]) == key;
                                lemma_encode_injective(t[v], name);
                                assert(has_term(t, name));
                            }
                        }
                        assert forall|i: int| 0 <= i < t.len() implies !(bytes_lt(key, #[trigger] encode_utf8(t[i]))
                            && bytes_lt(encode_utf8(t[i]), iv[x + 1].0)) by {
                            assert(srcs[q][i].0 == encode_utf8(t[i]));
                            lemma_union_gaps(iv, srcs, q, i, x as int);
                        }
                        lemma_cursor_next(t, cur0[q], key, iv[x + 1].0, hit);
                    }
                }
            }
            x += 1;
        }
        proof {
            lemma_cursor_bounds(ps, cursors, k as nat);
            assert forall|y: int, z: int| 0 <= y < z < names.len() implies lex_lt(#[trigger] names[y], #[trigger] names[z]) by {
                assert(entries@[y].0@ == iv[y].0 && iv[y].0 == encode_utf8(names[y]));
                assert(entries@[z].0@ == iv[z].0 && iv[z].0 == encode_utf8(names[z]));
                assert(bytes_lt(iv[y].0, iv[z].0));
                lemma_lex_from_bytes(names[y], names[z]);
            }
            assert forall|y: int| 0 <= y < names.len() implies doc_ids_ascending(#[trigger] entries@[y].1@) by {
                assert(entries@[y].1@ == concat_parts(ps, k as nat, names[y]));
            }
        }
        let r = FieldPostings::from_sorted_lists(entries, Ghost(names));
        proof {
            r.lemma_terms();
            assert forall|t: Seq<char>| #[trigger] r.term_map().contains_key(t) <==> exists|p: int|
                0 <= p < k && #[trigger] ps[p].term_map().contains_key(t) by {
                if r.term_map().contains_key(t) {
                    let y = choose|y: int| 0 <= y < names.len() && #[trigger] names[y] == t;
                    let p0 = iv[y].1[0].0 as int;
                    assert(holds_entry(srcs[p0], iv[y].0, iv[y].1[0].1));
                    let i = choose|i: int| 0 <= i < srcs[p0].len() && #[trigger] srcs[p0][i].0 == iv[y].0 && srcs[p0][i].1 == iv[y].1[0].1;
                    lemma_encode_injective(ps[p0].terms@[i], t);
                    ps[p0].lemma_position(i);
                }
                if exists|p: int| 0 <= p < k && #[trigger] ps[p].term_map().contains_key(t) {
                    let p = choose|p: int| 0 <= p < k && #[trigger] ps[p].term_map().contains_key(t);
                    let i = choose|i: int| 0 <= i < ps[p].terms@.len() && #[trigger] ps[p].terms@[i] == t;
                    assert(srcs[p][i].0 == encode_utf8(t));
                    let y = choose|y: int| 0 <= y < iv.len() && #[trigger] iv[y].0 == srcs[p][i].0;
                    lemma_encode_injective(names[y], t);
                    assert(r.term_seq()[y] == t);
                }
            }
            assert forall|t: Seq<char>| #[trigger] r.term_map().contains_key(t) implies r.term_map()[t] == concat_parts(
                ps,
                k as nat,
                t,
            ) by {
                let y = choose|y: int| 0 <= y < names.len() && #[trigger] names[y] == t;
                assert(r.term_map()[r.term_seq()[y]] == r.list_seq()[y]);
            }
        }
        r
    }
}


/// `srcs[a]` holds term `t` in field `f`.
pub open spec fn holds_term(src: &TermDictionary, f: Seq<char>, t: Seq<char>) -> bool {
    src.postings_view().contains_key(f) && src.postings_view()[f].contains_key(t)
}

/// The postings of `t` in field `f` in the first `n` sources, one source
/// after the other.
pub open spec fn concat_sources(srcs: Seq<&TermDictionary>, n: nat, f: Seq<char>, t: Seq<char>) -> Seq<Posting>
    decreases n,
{
    if n == 0 {
        Seq::empty()
    } else {
        concat_sources(srcs, (n - 1) as nat, f, t) + if holds_term(srcs[n - 1], f, t) {
            srcs[n - 1].postings_view()[f][t]
        } else {
            Seq::empty()
        }
    }
}

proof fn lemma_concat_sources_prefix(srcs: Seq<&TermDictionary>, k: nat, n: nat, f: Seq<char>, t: Seq<char>)
    requires
        k <= n <= srcs.len(),
    ensures
        concat_sources(srcs, k, f, t).len() <= concat_sources(srcs, n, f, t).len(),
        concat_sources(srcs, n, f, t).subrange(0, concat_sources(srcs, k, f, t).len() as int) == concat_sources(
            srcs,
            k,
            f,
            t,
        ),
    decreases n - k,
{
    if k < n {
        lemma_concat_sources_prefix(srcs, k, (n - 1) as nat, f, t);
        let a = concat_sources(srcs, k, f, t);
        let b = concat_sources(srcs, (n - 1) as nat, f, t);
        let c = concat_sources(srcs, n, f, t);
        assert(c.subrange(0, b.len() as int) =~= b);
        assert(c.subrange(0, a.len() as int) =~= b.subrange(0, a.len() as int));
    } else {
        let c = concat_sources(srcs, n, f, t);
        assert(c.subrange(0, c.len() as int) =~= c);
    }
}

proof fn lemma_concat_sources_none(srcs: Seq<&TermDictionary>, lo: nat, n: nat, f: Seq<char>, t: Seq<char>)
    requires
        lo <= n <= srcs.len(),
        forall|b: int| lo <= b < n ==> !#[trigger] holds_term(srcs[b], f, t),
    ensures
        concat_sources(srcs, n, f, t) == concat_sources(srcs, lo, f, t),
    decreases n - lo,
{
    if lo < n {
        lemma_concat_sources_none(srcs, lo, (n - 1) as nat, f, t);
        assert(!holds_term(srcs[n - 1], f, t));
        assert(concat_sources(srcs, n, f, t) =~= concat_sources(srcs, (n - 1) as nat, f, t));
    }
}

/// Merging lays a term's postings out one source after the other: the
/// merged list begins with the postings of the first source that holds
/// the term, and a term that only one source holds keeps exactly that
/// source's postings.
pub proof fn law_merged_postings_follow_source_order(srcs: Seq<&TermDictionary>, a: int, f: Seq<char>, t: Seq<char>)
    requires
        0 <= a < srcs.len(),
        holds_term(srcs[a], f, t),
        forall|b: int| 0 <= b < a ==> !#[trigger] holds_term(srcs[b], f, t),
    ensures
        concat_sources(srcs, srcs.len(), f, t).len() >= srcs[a].postings_view()[f][t].len(),
        concat_sources(srcs, srcs.len(), f, t).subrange(0, srcs[a].postings_view()[f][t].len() as int)
            == srcs[a].postings_view()[f][t],
        (forall|b: int| a < b < srcs.len() ==> !#[trigger] holds_term(srcs[b], f, t)) ==> concat_sources(
            srcs,
            srcs.len(),
            f,
            t,
        ) == srcs[a].postings_view()[f][t],
{
    let pa = srcs[a].postings_view()[f][t];
    lemma_concat_sources_none(srcs, 0, a as nat, f, t);
    assert(concat_sources(srcs, (a + 1) as nat, f, t) =~= pa);
    lemma_concat_sources_prefix(srcs, (a + 1) as nat, srcs.len(), f, t);
    if forall|b: int| a < b < srcs.len() ==> !#[trigger] holds_term(srcs[b], f, t) {
        lemma_concat_sources_none(srcs, (a + 1) as nat, srcs.len(), f, t);
    }
}

/// The terms of field `f` in the first `n` sources, counted.
pub open spec fn sources_terms(srcs: Seq<&TermDictionary>, n: nat, f: Seq<char>) -> nat
    decreases n,
{
    if n == 0 {
        0
    } else {
        sources_terms(srcs, (n - 1) as nat, f) + srcs[n - 1].field_terms(f).len()
    }
}

/// The postings of field `f` in the first `n` sources, counted.
pub open spec fn sources_postings(srcs: Seq<&TermDictionary>, n: nat, f: Seq<char>) -> nat
    decreases n,
{
    if n == 0 {
        0
    } else {
        sources_postings(srcs, (n - 1) as nat, f) + postings_total(
            srcs[n - 1].field_lists(f),
            srcs[n - 1].field_lists(f).len(),
        )
    }
}

impl TermDictionary {
    proof fn lemma_field_of(&self, f: Seq<char>)
        requires
            self.inv(),
            self.fields.map().contains_key(f),
        ensures
            self.fields.map()[f].wf(),
            self.postings_view()[f] == self.fields.map()[f].term_map(),
            self.field_terms(f) == self.fields.map()[f].term_seq(),
            self.field_lists(f) == self.fields.map()[f].list_seq(),
    {
        let fp = self.fields.map()[f];
        fp.lemma_terms();
        assert(self.field_lists(f) =~= fp.list_seq());
    }
}

/// Some of `parts` holds `t`.
pub open spec fn in_parts(parts: Seq<&FieldPostings>, t: Seq<char>) -> bool {
    exists|p: int| 0 <= p < parts.len() && #[trigger] parts[p].term_map().contains_key(t)
}

/// One of the first `a` sources holds `t` in field `f`.
pub open spec fn in_sources(srcs: Seq<&TermDictionary>, a: int, f: Seq<char>, t: Seq<char>) -> bool {
    exists|b: int| 0 <= b < a && #[trigger] holds_term(srcs[b], f, t)
}

/// Several dictionaries merged into one: every field of any source, with
/// every term of that field in any source, and for each term the sources'
/// postings of it one source after the other (sources keep disjoint,
/// increasing doc id ranges, so each merged run stays ascending).
pub fn merge_term_dictionaries(sources: &[&TermDictionary]) -> (r: TermDictionary)
    requires
        forall|f: Seq<char>, t: Seq<char>| doc_ids_ascending(#[trigger] concat_sources(sources@, sources@.len(), f, t)),
        forall|f: Seq<char>|
            #[trigger] sources_terms(sources@, sources@.len(), f) <= u32::MAX && sources_postings(
                sources@,
                sources@.len(),
                f,
            ) <= u32::MAX,
    ensures
        forall|f: Seq<char>|
            #[trigger] r.postings_view().contains_key(f) <==> exists|a: int|
                0 <= a < sources@.len() && #[trigger] sources@[a].postings_view().contains_key(f),
        forall|f: Seq<char>, t: Seq<char>|
            r.postings_view().contains_key(f) ==> (#[trigger] r.postings_view()[f].contains_key(t) <==> exists|a: int|
                0 <= a < sources@.len() && #[trigger] holds_term(sources@[a], f, t)),
        forall|f: Seq<char>, t: Seq<char>|
            #[trigger] holds_term(&r, f, t) ==> r.postings_view()[f][t] == concat_sources(sources@, sources@.len(), f, t),
{
    let n = sources.len();
    let ghost srcs = sources@;
    // the field names of every source
    let mut names: StringMap<bool> = StringMap::new();
    let mut a: usize = 0;
    while a < n
        invariant
            n == srcs.len(),
            srcs == sources@,
            a <= n,
            names.wf(),
            forall|f: Seq<char>|
                #[trigger] names.map().contains_key(f) <==> exists|b: int|
                    0 <= b < a && #[trigger] srcs[b].postings_view().contains_key(f),
        decreases n - a,
    {
        let keys = sources[a].field_names();
        let ghost before = names.map();
        let mut i: usize = 0;
        while i < keys.len()
            invariant
                n == srcs.len(),
                srcs == sources@,
                a < n,
                names.wf(),
                i <= keys@.len(),
                string_views(keys@).to_set() == srcs[a as int].postings_view().dom(),
                forall|f: Seq<char>|
                    #[trigger] names.map().contains_key(f) <==> (before.contains_key(f) || exists|j: int|
                        0 <= j < i && keys@[j]@ == f),
                forall|f: Seq<char>|
                    #[trigger] before.contains_key(f) <==> exists|b: int|
                        0 <= b < a && #[trigger] srcs[b].postings_view().contains_key(f),
            decreases keys.len() - i,
        {
            names.insert(keys[i].as_str(), true);
            proof {
                assert forall|f: Seq<char>| #[trigger] names.map().contains_key(f) <==> (before.contains_key(f)
                    || exists|j: int| 0 <= j < i + 1 && keys@[j]@ == f) by {
                    if f == keys@[i as int]@ {
                        assert(keys@[i as int]@ == f);
                    }
                }
            }
            i += 1;
        }
        proof {
            assert forall|f: Seq<char>| #[trigger] names.map().contains_key(f) <==> exists|b: int|
                0 <= b < a + 1 && #[trigger] srcs[b].postings_view().contains_key(f) by {
                if exists|j: int| 0 <= j < i && keys@[j]@ == f {
                    let j = choose|j: int| 0 <= j < i && keys@[j]@ == f;
                    assert(string_views(keys@)[j] == f);
                    assert(string_views(keys@).to_set().contains(f));
                }
                if srcs[a as int].postings_view().contains_key(f) {
                    assert(string_views(keys@).to_set().contains(f));
                    let j = choose|j: int| 0 <= j < string_views(keys@).len() && string_views(keys@)[j] == f;
                    assert(keys@[j]@ == f);
                }
                if exists|b: int| 0 <= b < a + 1 && #[trigger] srcs[b].postings_view().contains_key(f) {
                    let b = choose|b: int| 0 <= b < a + 1 && #[trigger] srcs[b].postings_view().contains_key(f);
                    if b < a {
                        assert(before.contains_key(f));
                    }
                }
            }
        }
        a += 1;
    }
    let field_list = names.keys();
    let mut built: Vec<(String, FieldPostings)> = Vec::new();
    let mut x: usize = 0;
    while x < field_list.len()
        invariant
            n == srcs.len(),
            srcs == sources@,
            names.wf(),
            crate::string_map::str_views(field_list@) == names.names(),
            sorted_names(names.names()),
            names.names().to_set() == names.map().dom(),
            forall|f: Seq<char>|
                #[trigger] names.map().contains_key(f) <==> exists|b: int|
                    0 <= b < n && #[trigger] srcs[b].postings_view().contains_key(f),
            forall|f: Seq<char>, t: Seq<char>| doc_ids_ascending(#[trigger] concat_sources(srcs, n as nat, f, t)),
            forall|f: Seq<char>|
                #[trigger] sources_terms(srcs, n as nat, f) <= u32::MAX && sources_postings(srcs, n as nat, f)
                    <= u32::MAX,
            x <= field_list@.len(),
            built@.len() == x,
            forall|y: int| 0 <= y < x ==> (#[trigger] built@[y]).0@ == names.names()[y],
            forall|y: int| 0 <= y < x ==> (#[trigger] built@[y]).1.wf(),
            forall|y: int, t: Seq<char>|
                0 <= y < x ==> (#[trigger] built@[y].1.term_map().contains_key(t) <==> exists|b: int|
                    0 <= b < n && #[trigger] holds_term(srcs[b], names.names()[y], t)),
            forall|y: int, t: Seq<char>|
                0 <= y < x && #[trigger] built@[y].1.term_map().contains_key(t) ==> built@[y].1.term_map()[t]
                    == concat_sources(srcs, n as nat, names.names()[y], t),
        decreases field_list.len() - x,
    {
        let field = field_list[x];
        let ghost f = field@;
        proof {
            assert(crate::string_map::str_views(field_list@)[x as int] == f);
        }
        let mut parts: Vec<&FieldPostings> = Vec::new();
        let mut a: usize = 0;
        while a < n
            invariant
                n == srcs.len(),
                srcs == sources@,
                a <= n,
                f == field@,
                forall|p: int| 0 <= p < parts@.len() ==> (#[trigger] parts@[p]).wf(),
                forall|t: Seq<char>| #[trigger] concat_parts(parts@, parts@.len(), t) == concat_sources(srcs, a as nat, f, t),
                forall|t: Seq<char>| #[trigger] in_parts(parts@, t) <==> in_sources(srcs, a as int, f, t),
                parts_terms(parts@, parts@.len()) == sources_terms(srcs, a as nat, f),
                parts_postings(parts@, parts@.len()) == sources_postings(srcs, a as nat, f),
            decreases n - a,
        {
            let src = sources[a];
            proof {
                use_type_invariant(src);
            }
            let ghost old_parts = parts@;
            match src.fields.get(field) {
                Some(fp) => {
                    proof {
                        assert(f == field@);
                        assert(src.fields.map().contains_key(field@));
                        src.lemma_field_of(f);
                        assert(srcs[a as int] == src);
                    }
                    parts.push(fp);
                    proof {
                        assert(parts@[old_parts.len() as int] == fp);
                        assert(src.postings_view().contains_key(f));
                        assert(parts@.subrange(0, old_parts.len() as int) =~= old_parts);
                        assert forall|t: Seq<char>| #[trigger] concat_parts(parts@, parts@.len(), t) == concat_sources(
                            srcs,
                            (a + 1) as nat,
                            f,
                            t,
                        ) by {
                            lemma_concat_parts_prefix(parts@, old_parts, old_parts.len(), t);
                            assert(holds_term(srcs[a as int], f, t) <==> fp.term_map().contains_key(t));
                        }
                        lemma_parts_sums_prefix(parts@, old_parts, old_parts.len());
                        assert forall|t: Seq<char>| #[trigger] in_parts(parts@, t) <==> in_sources(srcs, a + 1, f, t) by {
                            assert(in_parts(old_parts, t) <==> in_sources(srcs, a as int, f, t));
                            if exists|p: int| 0 <= p < parts@.len() && #[trigger] parts@[p].term_map().contains_key(t) {
                                let p = choose|p: int| 0 <= p < parts@.len() && #[trigger] parts@[p].term_map().contains_key(t);
                                if p < old_parts.len() {
                                    assert(old_parts[p] == parts@[p]);
                                } else {
                                    assert(holds_term(srcs[a as int], f, t));
                                }
                            }
                            if exists|b: int| 0 <= b < a + 1 && #[trigger] holds_term(srcs[b], f, t) {
                                let b = choose|b: int| 0 <= b < a + 1 && #[trigger] holds_term(srcs[b], f, t);
                                if b < a {
                                    let p = choose|p: int| 0 <= p < old_parts.len() && #[trigger] old_parts[p].term_map().contains_key(t);
                                    assert(parts@[p] == old_parts[p]);
                                } else {
                                    assert(parts@[old_parts.len() as int].term_map().contains_key(t));
                                }
                            }
                        }
                    }
                },
                None => {
                    proof {
                        assert(srcs[a as int] == src);
                        assert(!src.postings_view().contains_key(f));
                        assert(src.field_terms(f) =~= Seq::<Seq<char>>::empty());
                        assert(src.field_lists(f) =~= Seq::<Seq<Posting>>::empty());
                        assert forall|t: Seq<char>| #[trigger] concat_parts(parts@, parts@.len(), t) == concat_sources(
                            srcs,
                            (a + 1) as nat,
                            f,
                            t,
                        ) by {
                            assert(concat_sources(srcs, (a + 1) as nat, f, t) =~= concat_sources(srcs, a as nat, f, t));
                        }
                        assert forall|t: Seq<char>| #[trigger] in_parts(parts@, t) <==> in_sources(srcs, a + 1, f, t) by {
                            assert(in_parts(old_parts, t) <==> in_sources(srcs, a as int, f, t));
                            if exists|b: int| 0 <= b < a + 1 && #[trigger] holds_term(srcs[b], f, t) {
                                let b = choose|b: int| 0 <= b < a + 1 && #[trigger] holds_term(srcs[b], f, t);
                                assert(b < a);
                            }
                        }
                    }
                },
            }
            a += 1;
        }
        proof {
            assert forall|t: Seq<char>| doc_ids_ascending(#[trigger] concat_parts(parts@, parts@.len(), t)) by {
                assert(concat_parts(parts@, parts@.len(), t) == concat_sources(srcs, n as nat, f, t));
            }
            assert(sources_terms(srcs, n as nat, f) <= u32::MAX);
        }
        let fp = FieldPostings::merge_parts(parts.as_slice());
        let ghost built_before = built@;
        built.push((field.to_owned(), fp));
        proof {
            assert forall|y: int, t: Seq<char>|
                0 <= y < x + 1 implies (#[trigger] built@[y].1.term_map().contains_key(t) <==> exists|b: int|
                    0 <= b < n && #[trigger] holds_term(srcs[b], names.names()[y], t)) by {
                if y < x {
                    assert(built@[y] == built_before[y]);
                } else {
                    assert(names.names()[y] == f);
                    assert(in_parts(parts@, t) <==> in_sources(srcs, n as int, f, t));
                }
            }
            assert forall|y: int, t: Seq<char>|
                0 <= y < x + 1 && #[trigger] built@[y].1.term_map().contains_key(t) implies built@[y].1.term_map()[t]
                    == concat_sources(srcs, n as nat, names.names()[y], t) by {
                if y < x {
                    assert(built@[y] == built_before[y]);
                } else {
                    assert(names.names()[y] == f);
                    assert(concat_parts(parts@, parts@.len(), t) == concat_sources(srcs, n as nat, f, t));
                }
            }
            assert forall|y: int| 0 <= y < x + 1 implies (#[trigger] built@[y]).0@ == names.names()[y] by {
                if y < x {
                    assert(built@[y] == built_before[y]);
                }
            }
            assert forall|y: int| 0 <= y < x + 1 implies (#[trigger] built@[y]).1.wf() by {
                if y < x {
                    assert(built@[y] == built_before[y]);
                }
            }
        }
        x += 1;
    }
    proof {
        assert(built@.map_values(|e: (String, FieldPostings)| e.0@) =~= names.names());
    }
    let ghost bseq = built@;
    let fields = StringMap::from_entries(built);
    proof {
        fields.lemma_entries();
        names.lemma_entries();
        assert(fields.names() =~= names.names());
        assert forall|k: Seq<char>| #[trigger] fields.map().contains_key(k) implies fields.map()[k].wf() by {
            let y = choose|y: int| 0 <= y < fields.names().len() && fields.names()[y] == k;
            assert(fields.map()[fields.names()[y]] == bseq[y].1);
        }
    }
    let r = TermDictionary::from_fields(fields);
    proof {
        assert forall|f: Seq<char>| #[trigger] r.postings_view().contains_key(f) <==> exists|a: int|
            0 <= a < n && #[trigger] srcs[a].postings_view().contains_key(f) by {
            assert(r.postings_view().contains_key(f) <==> fields.map().contains_key(f));
            assert(fields.map().dom() == names.names().to_set());
        }
        assert forall|f: Seq<char>, t: Seq<char>| r.postings_view().contains_key(f) implies (
        #[trigger] r.postings_view()[f].contains_key(t) <==> exists|a: int|
            0 <= a < n && #[trigger] holds_term(srcs[a], f, t)) by {
            assert(fields.map().contains_key(f));
            let y = choose|y: int| 0 <= y < fields.names().len() && fields.names()[y] == f;
            assert(fields.map()[fields.names()[y]] == bseq[y].1);
            assert(r.postings_view()[f] == bseq[y].1.term_map());
            assert(bseq[y].1.term_map().contains_key(t) <==> exists|b: int|
                0 <= b < n && #[trigger] holds_term(srcs[b], names.names()[y], t));
        }
        assert forall|f: Seq<char>, t: Seq<char>| #[trigger] holds_term(&r, f, t) implies r.postings_view()[f][t]
            == concat_sources(srcs, n as nat, f, t) by {
            assert(fields.map().contains_key(f));
            let y = choose|y: int| 0 <= y < fields.names().len() && fields.names()[y] == f;
            assert(fields.map()[fields.names()[y]] == bseq[y].1);
            assert(r.postings_view()[f] == bseq[y].1.term_map());
            assert(bseq[y].1.term_map().contains_key(t));
        }
    }
    r
}

proof fn lemma_concat_parts_prefix(a: Seq<&FieldPostings>, b: Seq<&FieldPostings>, n: nat, t: Seq<char>)
    requires
        n <= a.len(),
        n <= b.len(),
        forall|j: int| 0 <= j < n ==> a[j] == b[j],
    ensures
        concat_parts(a, n, t) == concat_parts(b, n, t),
    decreases n,
{
    if n > 0 {
        lemma_concat_parts_prefix(a, b, (n - 1) as nat, t);
    }
}

proof fn lemma_parts_sums_prefix(a: Seq<&FieldPostings>, b: Seq<&FieldPostings>, n: nat)
    requires
        n <= a.len(),
        n <= b.len(),
        forall|j: int| 0 <= j < n ==> a[j] == b[j],
    ensures
        parts_terms(a, n) == parts_terms(b, n),
        parts_postings(a, n) == parts_postings(b, n),
    decreases n,
{
    if n > 0 {
        lemma_parts_sums_prefix(a, b, (n - 1) as nat);
    }
}

} // verus!
