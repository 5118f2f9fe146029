//! Postings: the per-term lists of `(doc_id, freq)` that an inverted index
//! keeps, the builder that accumulates them per field and term, and the
//! fixed-width entry that locates a term's postings on disk.

use vstd::prelude::*;

use crate::roaring::RoaringDocSet;
use crate::string_map::{sorted_names, StringMap};
use crate::term_dictionary::{
    doc_ids_ascending, freq_total, has_doc, lemma_freq_total_absent, lemma_freq_total_agree, lemma_freq_total_nonneg,
    lemma_list_total_grows, list_total, merged_freq, merges, FieldPostings, TermDictionary,
};
use crate::text::{blank, is_blank};
use vstd::string::StringSliceAdditionalSpecFns;

verus! {

/// Postings per block of block-max statistics.
pub const BLOCK_SIZE: usize = 128;

/// The encoded length of a [`TermEntry`].
pub const TERM_ENTRY_ENCODED_LEN: u64 = 28;

#[derive(Debug, Clone, Copy, PartialEq, Eq, Structural)]
pub enum PostingsError {
    EmptyField,
    EmptyTerm,
}

/// A read failure that is not the normal absence of a term.
#[derive(Debug, Clone, Copy, PartialEq, Eq, Structural)]
pub enum PostingsReadError {
    /// A positional read failed.
    Io,
    /// Metadata or a payload does not follow the codec.
    Corrupt,
    /// The term has no usable disk coverage.
    MissingCoverage,
}

/// The outcome of advancing a disk cursor: a doc id, the normal end, or a
/// read error.
#[derive(Debug, Clone, Copy, PartialEq, Eq, Structural)]
pub enum DiskPostingsAdvance {
    Found(u32),
    Exhausted,
    Error,
}

/// Counters of the attested postings read path.
#[derive(Debug, Default, Clone, Copy, PartialEq, Eq)]
pub struct P2IntegrityMetrics {
    pub integrity_bytes: u64,
    pub integrity_pages: u64,
    pub verified_bytes: u64,
    pub hash_failures: u64,
    pub fallbacks: u64,
    pub fallback_fields: u64,
    pub term_occurrences: u64,
    pub blocks: u64,
    pub fields: u64,
    pub term_payload_bytes: u64,
    pub csr_bytes: u64,
    pub directory_bytes: u64,
}

/// One posting: a document and the term's frequency in it.
#[derive(Debug, Clone, Copy, PartialEq, Eq, Structural)]
pub struct Posting {
    pub doc_id: u32,
    pub freq: u32,
}

impl Posting {
    pub fn new(doc_id: u32, freq: u32) -> (r: Self)
        ensures
            r == (Posting { doc_id, freq }),
    {
        Posting { doc_id, freq }
    }

    /// The frequency of a term from its positions: their count, or 1 for
    /// an empty list (one occurrence without positions).
    pub fn freq_from_positions(positions: &[u32]) -> (r: u32)
        ensures
            r == (if positions@.len() == 0 {
                1
            } else {
                positions@.len() as u32
            }),
    {
        if positions.len() == 0 {
            1
        } else {
            positions.len() as u32
        }
    }
}

/// The largest frequency in a block of postings.
#[derive(Debug, Default, Clone, PartialEq, Eq)]
pub struct BlockMeta {
    pub max_term_freq: u32,
}

pub open spec fn sat_add_u32(a: u32, b: u32) -> u32 {
    if a + b > u32::MAX {
        u32::MAX
    } else {
        (a + b) as u32
    }
}

/// Postings sorted by doc id with each run of one doc id merged into one
/// posting whose frequency is the run's saturating sum.
pub open spec fn merged_postings(ps: Seq<Posting>) -> Seq<Posting>
    decreases ps.len(),
{
    if ps.len() == 0 {
        Seq::empty()
    } else {
        let m = merged_postings(ps.drop_last());
        let p = ps.last();
        if m.len() > 0 && m.last().doc_id == p.doc_id {
            m.update(m.len() - 1, Posting { doc_id: p.doc_id, freq: sat_add_u32(m.last().freq, p.freq) })
        } else {
            m.push(p)
        }
    }
}

/// Merges each run of equal doc ids into one posting, adding frequencies
/// with saturation.
pub fn dedup_merge_postings(postings: &mut Vec<Posting>)
    ensures
        final(postings)@ == merged_postings(old(postings)@),
{
    let mut out: Vec<Posting> = Vec::new();
    let mut i: usize = 0;
    while i < postings.len()
        invariant
            i <= postings@.len(),
            *postings == *old(postings),
            out@ == merged_postings(postings@.subrange(0, i as int)),
        decreases postings.len() - i,
    {
        let p = postings[i];
        proof {
            assert(postings@.subrange(0, i + 1).drop_last() =~= postings@.subrange(0, i as int));
        }
        let n = out.len();
        if n > 0 && out[n - 1].doc_id == p.doc_id {
            let last = out[n - 1];
            let freq = last.freq.saturating_add(p.freq);
            out.set(n - 1, Posting { doc_id: p.doc_id, freq });
        } else {
            out.push(p);
        }
        i += 1;
    }
    proof {
        assert(postings@.subrange(0, i as int) =~= postings@);
    }
    *postings = out;
}

/// Doc ids never decreasing.
pub open spec fn doc_ids_sorted(ps: Seq<Posting>) -> bool {
    forall|i: int, j: int| 0 <= i <= j < ps.len() ==> (#[trigger] ps[i]).doc_id <= (#[trigger] ps[j]).doc_id
}

/// Merging the runs of a list sorted by doc id gives one posting per doc
/// id of the list, in ascending doc id order, whose frequency is the sum
/// of that doc id's frequencies, `u32::MAX` past it: the list merged as
/// the postings of one term are.
pub proof fn law_dedup_merges_sorted_postings(ps: Seq<Posting>)
    requires
        doc_ids_sorted(ps),
    ensures
        merges(merged_postings(ps), ps),
    decreases ps.len(),
{
    if ps.len() > 0 {
        let n = ps.len() - 1;
        let q = ps.drop_last();
        let p = ps.last();
        let m = merged_postings(q);
        law_dedup_merges_sorted_postings(q);
        let out = merged_postings(ps);
        assert forall|d: u32| freq_total(ps, ps.len(), d) == freq_total(q, q.len(), d) + if p.doc_id == d {
            p.freq as int
        } else {
            0
        } by {
            lemma_freq_total_agree(ps, q, n as nat, d);
        }
        assert forall|d: u32| has_doc(ps, d) <==> has_doc(q, d) || p.doc_id == d by {
            if has_doc(ps, d) {
                let j = choose|j: int| 0 <= j < ps.len() && (#[trigger] ps[j]).doc_id == d;
                if j < n {
                    assert(q[j] == ps[j]);
                }
            }
            if has_doc(q, d) {
                let j = choose|j: int| 0 <= j < q.len() && (#[trigger] q[j]).doc_id == d;
                assert(ps[j] == q[j]);
            }
            if p.doc_id == d {
                assert(ps[n] == p);
            }
        }
        // every doc id of `m` is at most `p`'s
        assert forall|i: int| 0 <= i < m.len() implies (#[trigger] m[i]).doc_id <= p.doc_id by {
            assert(has_doc(m, m[i].doc_id));
            let j = choose|j: int| 0 <= j < q.len() && (#[trigger] q[j]).doc_id == m[i].doc_id;
            assert(ps[j] == q[j] && ps[n] == p);
        }
        if m.len() > 0 && m.last().doc_id == p.doc_id {
            let k = m.len() - 1;
            assert forall|d: u32| #[trigger] has_doc(out, d) <==> has_doc(m, d) by {
                if has_doc(out, d) {
                    let j = choose|j: int| 0 <= j < out.len() && (#[trigger] out[j]).doc_id == d;
                    assert(m[j].doc_id == d);
                }
                if has_doc(m, d) {
                    let j = choose|j: int| 0 <= j < m.len() && (#[trigger] m[j]).doc_id == d;
                    assert(out[j].doc_id == d);
                }
            }
            assert(has_doc(m, p.doc_id)) by {
                assert(m[k].doc_id == p.doc_id);
            }
            assert forall|i: int, j: int| 0 <= i < j < out.len() implies (#[trigger] out[i]).doc_id
                < (#[trigger] out[j]).doc_id by {
                assert(m[i].doc_id < m[j].doc_id);
            }
            assert forall|i: int| 0 <= i < out.len() implies (#[trigger] out[i]).freq == merged_freq(
                ps,
                out[i].doc_id,
            ) by {
                let d = out[i].doc_id;
                lemma_freq_total_nonneg(q, q.len(), d);
                if i < k {
                    assert(out[i] == m[i]);
                    assert(m[i].doc_id < m[k].doc_id);
                    assert(m[i].freq == merged_freq(q, d));
                } else {
                    assert(m[k].freq == merged_freq(q, d));
                }
            }
        } else {
            assert(!has_doc(q, p.doc_id)) by {
                if has_doc(q, p.doc_id) {
                    assert(has_doc(m, p.doc_id));
                    let j = choose|j: int| 0 <= j < m.len() && (#[trigger] m[j]).doc_id == p.doc_id;
                    assert(m.len() > 0);
                    if j < m.len() - 1 {
                        assert(m[j].doc_id < m[m.len() - 1].doc_id);
                    }
                }
            }
            assert(freq_total(q, q.len(), p.doc_id) == 0) by {
                assert forall|j: int| 0 <= j < q.len() implies (#[trigger] q[j]).doc_id != p.doc_id by {
                    if q[j].doc_id == p.doc_id {
                        assert(has_doc(q, p.doc_id));
                    }
                }
                lemma_freq_total_absent(q, q.len(), p.doc_id);
            }
            assert(out == m.push(p));
            assert forall|d: u32| #[trigger] has_doc(out, d) <==> (has_doc(m, d) || p.doc_id == d) by {
                if has_doc(out, d) {
                    let j = choose|j: int| 0 <= j < out.len() && (#[trigger] out[j]).doc_id == d;
                    if j < m.len() {
                        assert(m[j] == out[j]);
                    }
                }
                if has_doc(m, d) {
                    let j = choose|j: int| 0 <= j < m.len() && (#[trigger] m[j]).doc_id == d;
                    assert(out[j] == m[j]);
                }
                if p.doc_id == d {
                    assert(out[m.len() as int] == p);
                }
            }
            assert forall|i: int| 0 <= i < m.len() implies (#[trigger] m[i]).doc_id < p.doc_id by {
                if m[i].doc_id == p.doc_id {
                    assert(has_doc(m, p.doc_id));
                }
            }
            assert forall|i: int, j: int| 0 <= i < j < out.len() implies (#[trigger] out[i]).doc_id
                < (#[trigger] out[j]).doc_id by {
                assert(out[i] == m[i]);
                if j < m.len() {
                    assert(out[j] == m[j]);
                }
            }
            assert forall|i: int| 0 <= i < out.len() implies (#[trigger] out[i]).freq == merged_freq(
                ps,
                out[i].doc_id,
            ) by {
                if i < m.len() {
                    assert(out[i] == m[i]);
                    assert(m[i].doc_id < p.doc_id);
                }
            }
        }
    }
}

/// The largest frequency of `ps[start..end]`, 0 when empty.
pub open spec fn max_freq(ps: Seq<Posting>, start: int, end: int) -> u32
    decreases end - start,
{
    if end <= start {
        0
    } else {
        let m = max_freq(ps, start, end - 1);
        if ps[end - 1].freq > m {
            ps[end - 1].freq
        } else {
            m
        }
    }
}

/// The block-max statistic of each block of [`BLOCK_SIZE`] postings.
pub open spec fn block_metas_spec(ps: Seq<Posting>) -> Seq<u32> {
    Seq::new(
        ((ps.len() + BLOCK_SIZE - 1) / BLOCK_SIZE as int) as nat,
        |k: int|
            max_freq(
                ps,
                k * BLOCK_SIZE,
                if (k + 1) * BLOCK_SIZE < ps.len() {
                    (k + 1) * BLOCK_SIZE
                } else {
                    ps.len() as int
                },
            ),
    )
}

/// The largest frequency of `ps[start..end]` is at least each of them and
/// is one of them when the range is not empty.
proof fn lemma_max_freq(ps: Seq<Posting>, start: int, end: int)
    requires
        0 <= start <= end <= ps.len(),
    ensures
        forall|j: int| start <= j < end ==> (#[trigger] ps[j]).freq <= max_freq(ps, start, end),
        start < end ==> exists|j: int| start <= j < end && (#[trigger] ps[j]).freq == max_freq(ps, start, end),
    decreases end - start,
{
    if start < end {
        lemma_max_freq(ps, start, end - 1);
        if start < end - 1 && max_freq(ps, start, end) == max_freq(ps, start, end - 1) {
            let j = choose|j: int| start <= j < end - 1 && (#[trigger] ps[j]).freq == max_freq(ps, start, end - 1);
            assert(ps[j].freq == max_freq(ps, start, end));
        } else {
            if start == end - 1 {
                assert(max_freq(ps, start, end - 1) == 0);
            }
            assert(ps[end - 1].freq == max_freq(ps, start, end));
        }
    }
}

/// The statistic of block `k` is the largest frequency among the block's
/// postings, those from `k * BLOCK_SIZE` up to the next multiple or the
/// end: none of them has a larger frequency and one has exactly it.
pub proof fn law_block_meta_is_block_max(ps: Seq<Posting>, k: int)
    requires
        0 <= k < block_metas_spec(ps).len(),
    ensures
        k * BLOCK_SIZE < ps.len(),
        forall|j: int|
            k * BLOCK_SIZE <= j < ps.len() && j < (k + 1) * BLOCK_SIZE ==> (#[trigger] ps[j]).freq
                <= block_metas_spec(ps)[k],
        exists|j: int|
            k * BLOCK_SIZE <= j < ps.len() && j < (k + 1) * BLOCK_SIZE && (#[trigger] ps[j]).freq
                == block_metas_spec(ps)[k],
{
    let n = ps.len() as int;
    let b = BLOCK_SIZE as int;
    assert(k * b < n) by (nonlinear_arith)
        requires
            0 <= k < (n + b - 1) / b,
            b == 128,
            n >= 0,
    ;
    let end = if (k + 1) * b < n {
        (k + 1) * b
    } else {
        n
    };
    assert(0 <= k * b) by (nonlinear_arith)
        requires
            0 <= k,
            b == 128,
    ;
    lemma_max_freq(ps, k * b, end);
    assert(block_metas_spec(ps)[k] == max_freq(ps, k * b, end));
}

/// One [`BlockMeta`] per block of [`BLOCK_SIZE`] postings: the block's
/// largest frequency.
pub fn build_block_metas(postings: &[Posting]) -> (r: Vec<BlockMeta>)
    ensures
        r@.map_values(|b: BlockMeta| b.max_term_freq) == block_metas_spec(postings@),
{
    let ghost spec = block_metas_spec(postings@);
    let n = postings.len();
    let mut out: Vec<BlockMeta> = Vec::new();
    let mut start: usize = 0;
    let mut k: usize = 0;
    proof {
        assert(spec.len() * BLOCK_SIZE >= n && (spec.len() == 0 || (spec.len() - 1) * BLOCK_SIZE < n)) by (nonlinear_arith)
            requires
                spec.len() == ((n + BLOCK_SIZE - 1) / BLOCK_SIZE as int) as nat,
                BLOCK_SIZE == 128,
        ;
    }
    while start < n
        invariant
            n == postings@.len(),
            spec == block_metas_spec(postings@),
            spec.len() * BLOCK_SIZE >= n,
            spec.len() == 0 || (spec.len() - 1) * BLOCK_SIZE < n,
            start == (if k * BLOCK_SIZE < n {
                k * BLOCK_SIZE
            } else {
                n as int
            }),
            k <= spec.len(),
            start < n ==> k < spec.len(),
            out@.len() == k,
            forall|j: int| 0 <= j < k ==> (#[trigger] out@[j]).max_term_freq == spec[j],
        decreases n - start,
    {
        let end = if n - start > BLOCK_SIZE {
            start + BLOCK_SIZE
        } else {
            n
        };
        let mut m: u32 = 0;
        let mut x: usize = start;
        while x < end
            invariant
                start <= x <= end <= n,
                n == postings@.len(),
                m == max_freq(postings@, start as int, x as int),
            decreases end - x,
        {
            if postings[x].freq > m {
                m = postings[x].freq;
            }
            x += 1;
        }
        out.push(BlockMeta { max_term_freq: m });
        proof {
            assert(out@[k as int].max_term_freq == spec[k as int]);
            assert forall|j: int| 0 <= j < k + 1 implies (#[trigger] out@[j]).max_term_freq == spec[j] by {
            }
            if end < n {
                assert((k + 1) * BLOCK_SIZE == end);
                assert(k + 1 < spec.len()) by (nonlinear_arith)
                    requires
                        end == start + BLOCK_SIZE,
                        start == k * BLOCK_SIZE,
                        end < n,
                        spec.len() * BLOCK_SIZE >= n,
                        BLOCK_SIZE == 128,
                ;
            } else {
                assert(k + 1 >= spec.len()) by (nonlinear_arith)
                    requires
                        start == k * BLOCK_SIZE,
                        start < n,
                        n <= start + BLOCK_SIZE,
                        spec.len() == 0 || (spec.len() - 1) * BLOCK_SIZE < n,
                        k < spec.len(),
                        BLOCK_SIZE == 128,
                ;
            }
        }
        start = end;
        k += 1;
    }
    proof {
        assert(k == spec.len());
        assert(out@.map_values(|b: BlockMeta| b.max_term_freq) =~= spec);
    }
    out
}


/// The largest of `fs[start..end]`, 0 when empty.
pub open spec fn max_of(fs: Seq<u32>, start: int, end: int) -> u32
    decreases end - start,
{
    if end <= start {
        0
    } else {
        let m = max_of(fs, start, end - 1);
        if fs[end - 1] > m {
            fs[end - 1]
        } else {
            m
        }
    }
}

/// The largest frequency of each block of [`BLOCK_SIZE`] frequencies.
pub open spec fn block_maxes(fs: Seq<u32>) -> Seq<u32> {
    Seq::new(
        ((fs.len() + BLOCK_SIZE - 1) / BLOCK_SIZE as int) as nat,
        |k: int|
            max_of(
                fs,
                k * BLOCK_SIZE,
                if (k + 1) * BLOCK_SIZE < fs.len() {
                    (k + 1) * BLOCK_SIZE
                } else {
                    fs.len() as int
                },
            ),
    )
}

/// One [`BlockMeta`] per block of [`BLOCK_SIZE`] frequencies: the block's
/// largest frequency.
pub fn build_block_metas_from_freqs(freqs: &[u32]) -> (r: Vec<BlockMeta>)
    ensures
        r@.map_values(|b: BlockMeta| b.max_term_freq) == block_maxes(freqs@),
{
    let ghost spec = block_maxes(freqs@);
    let n = freqs.len();
    let mut out: Vec<BlockMeta> = Vec::new();
    let mut start: usize = 0;
    let mut k: usize = 0;
    proof {
        assert(spec.len() * BLOCK_SIZE >= n && (spec.len() == 0 || (spec.len() - 1) * BLOCK_SIZE < n)) by (nonlinear_arith)
            requires
                spec.len() == ((n + BLOCK_SIZE - 1) / BLOCK_SIZE as int) as nat,
                BLOCK_SIZE == 128,
        ;
    }
    while start < n
        invariant
            n == freqs@.len(),
            spec == block_maxes(freqs@),
            spec.len() * BLOCK_SIZE >= n,
            spec.len() == 0 || (spec.len() - 1) * BLOCK_SIZE < n,
            start == (if k * BLOCK_SIZE < n {
                k * BLOCK_SIZE
            } else {
                n as int
            }),
            k <= spec.len(),
            start < n ==> k < spec.len(),
            out@.len() == k,
            forall|j: int| 0 <= j < k ==> (#[trigger] out@[j]).max_term_freq == spec[j],
        decreases n - start,
    {
        let end = if n - start > BLOCK_SIZE {
            start + BLOCK_SIZE
        } else {
            n
        };
        let mut m: u32 = 0;
        let mut x: usize = start;
        while x < end
            invariant
                start <= x <= end <= n,
                n == freqs@.len(),
                m == max_of(freqs@, start as int, x as int),
            decreases end - x,
        {
            if freqs[x] > m {
                m = freqs[x];
            }
            x += 1;
        }
        out.push(BlockMeta { max_term_freq: m });
        proof {
            assert(out@[k as int].max_term_freq == spec[k as int]);
            assert forall|j: int| 0 <= j < k + 1 implies (#[trigger] out@[j]).max_term_freq == spec[j] by {
            }
            if end < n {
                assert((k + 1) * BLOCK_SIZE == end);
                assert(k + 1 < spec.len()) by (nonlinear_arith)
                    requires
                        end == start + BLOCK_SIZE,
                        start == k * BLOCK_SIZE,
                        end < n,
                        spec.len() * BLOCK_SIZE >= n,
                        BLOCK_SIZE == 128,
                ;
            } else {
                assert(k + 1 >= spec.len()) by (nonlinear_arith)
                    requires
                        start == k * BLOCK_SIZE,
                        start < n,
                        n <= start + BLOCK_SIZE,
                        spec.len() == 0 || (spec.len() - 1) * BLOCK_SIZE < n,
                        k < spec.len(),
                        BLOCK_SIZE == 128,
                ;
            }
        }
        start = end;
        k += 1;
    }
    proof {
        assert(k == spec.len());
        assert(out@.map_values(|b: BlockMeta| b.max_term_freq) =~= spec);
    }
    out
}

proof fn lemma_max_of_freqs(ps: Seq<Posting>, start: int, end: int)
    requires
        0 <= start,
        end <= ps.len(),
    ensures
        max_of(ps.map_values(|p: Posting| p.freq), start, end) == max_freq(ps, start, end),
    decreases end - start,
{
    if end > start {
        lemma_max_of_freqs(ps, start, end - 1);
        assert(ps.map_values(|p: Posting| p.freq)[end - 1] == ps[end - 1].freq);
    }
}

/// The block statistics built from the frequencies alone are those built
/// from the postings they come from.
pub proof fn law_block_metas_from_freqs_match(ps: Seq<Posting>)
    ensures
        block_maxes(ps.map_values(|p: Posting| p.freq)) == block_metas_spec(ps),
{
    let fs = ps.map_values(|p: Posting| p.freq);
    assert forall|k: int| 0 <= k < block_maxes(fs).len() implies #[trigger] block_maxes(fs)[k] == block_metas_spec(ps)[k] by {
        let end = if (k + 1) * BLOCK_SIZE < ps.len() {
            (k + 1) * BLOCK_SIZE
        } else {
            ps.len() as int
        };
        assert(0 <= k * BLOCK_SIZE) by (nonlinear_arith)
            requires
                0 <= k,
                BLOCK_SIZE == 128,
        ;
        lemma_max_of_freqs(ps, k * BLOCK_SIZE, end);
    }
    assert(block_maxes(fs) =~= block_metas_spec(ps));
}


/// Strict lexicographic order on byte strings (the order of an FST's keys).
pub open spec fn bytes_lt(a: Seq<u8>, b: Seq<u8>) -> bool
    decreases a.len(),
{
    if a.len() == 0 {
        b.len() > 0
    } else if b.len() == 0 {
        false
    } else if a[0] < b[0] {
        true
    } else if a[0] == b[0] {
        bytes_lt(a.drop_first(), b.drop_first())
    } else {
        false
    }
}

/// `s` starts with `p`.
pub open spec fn has_prefix(p: Seq<u8>, s: Seq<u8>) -> bool {
    p.len() <= s.len() && s.subrange(0, p.len() as int) == p
}

/// The exclusive upper bound of the byte strings that start with `p`:
/// `p` cut after its last byte below `0xFF`, that byte incremented; none
/// when every byte is `0xFF` (the empty prefix included).
pub open spec fn upper_bound_spec(p: Seq<u8>) -> Option<Seq<u8>>
    decreases p.len(),
{
    if p.len() == 0 {
        None
    } else {
        match upper_bound_spec(p.drop_first()) {
            Some(u) => Some(seq![p[0]] + u),
            None => if p[0] < 0xFF {
                Some(seq![(p[0] + 1) as u8])
            } else {
                None
            },
        }
    }
}

proof fn lemma_upper_bound_none(p: Seq<u8>)
    requires
        forall|j: int| 0 <= j < p.len() ==> p[j] == 0xFF,
    ensures
        upper_bound_spec(p) is None,
    decreases p.len(),
{
    if p.len() > 0 {
        lemma_upper_bound_none(p.drop_first());
    }
}

proof fn lemma_upper_bound_at(p: Seq<u8>, k: int)
    requires
        0 <= k < p.len(),
        p[k] < 0xFF,
        forall|j: int| k < j < p.len() ==> p[j] == 0xFF,
    ensures
        upper_bound_spec(p) == Some(p.subrange(0, k).push((p[k] + 1) as u8)),
    decreases p.len(),
{
    let q = p.drop_first();
    if k == 0 {
        lemma_upper_bound_none(q);
        assert(p.subrange(0, 0).push((p[0] + 1) as u8) =~= seq![(p[0] + 1) as u8]);
    } else {
        lemma_upper_bound_at(q, k - 1);
        assert(seq![p[0]] + q.subrange(0, k - 1).push((q[k - 1] + 1) as u8) =~= p.subrange(0, k).push(
            (p[k] + 1) as u8,
        ));
    }
}

/// The smallest byte string greater than every byte string that starts
/// with `prefix`, the exclusive end of a scan over that prefix; none when
/// there is no such bound (every byte `0xFF`, or no byte).
pub fn prefix_upper_bound(prefix: &[u8]) -> (r: Option<Vec<u8>>)
    ensures
        match r {
            Some(v) => upper_bound_spec(prefix@) == Some(v@),
            None => upper_bound_spec(prefix@) is None,
        },
{
    let mut i: usize = prefix.len();
    while i > 0
        invariant
            i <= prefix@.len(),
            forall|j: int| i <= j < prefix@.len() ==> prefix@[j] == 0xFF,
        decreases i,
    {
        if prefix[i - 1] < 0xFF {
            let mut upper: Vec<u8> = Vec::new();
            let mut j: usize = 0;
            while j < i - 1
                invariant
                    j <= i - 1,
                    i <= prefix@.len(),
                    upper@ == prefix@.subrange(0, j as int),
                decreases i - 1 - j,
            {
                upper.push(prefix[j]);
                j += 1;
                assert(upper@ =~= prefix@.subrange(0, j as int));
            }
            upper.push(prefix[i - 1] + 1);
            proof {
                lemma_upper_bound_at(prefix@, i - 1);
            }
            return Some(upper);
        }
        i -= 1;
    }
    proof {
        lemma_upper_bound_none(prefix@);
    }
    None
}

/// The byte strings that start with `p` are exactly those at or past `p`
/// and, where there is an upper bound, before it: a range scan from `p` to
/// [`prefix_upper_bound`] visits the strings with that prefix and no other.
pub proof fn law_prefix_range(p: Seq<u8>, s: Seq<u8>)
    ensures
        has_prefix(p, s) <==> (!bytes_lt(s, p) && match upper_bound_spec(p) {
            Some(u) => bytes_lt(s, u),
            None => true,
        }),
    decreases p.len(),
{
    if p.len() == 0 {
        assert(s.subrange(0, 0) =~= p);
    } else if s.len() == 0 {
    } else {
        let q = p.drop_first();
        let t = s.drop_first();
        law_prefix_range(q, t);
        assert(has_prefix(p, s) <==> (s[0] == p[0] && has_prefix(q, t))) by {
            if has_prefix(p, s) {
                assert(s.subrange(0, p.len() as int)[0] == s[0]);
                assert(t.subrange(0, q.len() as int) =~= s.subrange(0, p.len() as int).drop_first());
            }
            if s[0] == p[0] && has_prefix(q, t) {
                assert(s.subrange(0, p.len() as int) =~= seq![s[0]] + t.subrange(0, q.len() as int));
                assert(p =~= seq![p[0]] + q);
            }
        }
        assert(bytes_lt(s, p) == (s[0] < p[0] || (s[0] == p[0] && bytes_lt(t, q))));
        match upper_bound_spec(q) {
            Some(u) => {
                let w = seq![p[0]] + u;
                assert(w[0] == p[0]);
                assert(w.drop_first() =~= u);
                assert(upper_bound_spec(p) == Some(w));
                assert(bytes_lt(s, w) == (s[0] < p[0] || (s[0] == p[0] && bytes_lt(t, u))));
            },
            None => {
                if p[0] < 0xFF {
                    let w = seq![(p[0] + 1) as u8];
                    assert(w.drop_first() =~= Seq::<u8>::empty());
                    assert(upper_bound_spec(p) == Some(w));
                    assert(!bytes_lt(t, Seq::<u8>::empty()));
                    assert(bytes_lt(s, w) == (s[0] <= p[0]));
                } else {
                    assert(upper_bound_spec(p) is None);
                }
            },
        }
    }
}

} // verus!

verus! {

/// A term's postings as a map view: term to its postings in insertion order.
pub open spec fn terms_view(m: StringMap<Vec<Posting>>) -> Map<Seq<char>, Seq<Posting>> {
    m.map().map_values(|v: Vec<Posting>| v@)
}

/// Accumulates postings per field and term.
#[derive(Debug)]
pub struct PostingsBuilder {
    fields: StringMap<StringMap<Vec<Posting>>>,
}

impl PostingsBuilder {
    #[verifier::type_invariant]
    spec fn inv(self) -> bool {
        &&& self.fields.wf()
        &&& forall|k: Seq<char>| #[trigger] self.fields.map().contains_key(k) ==> self.fields.map()[k].wf()
    }

    /// The postings per field and term.
    pub closed spec fn postings(&self) -> Map<Seq<char>, Map<Seq<char>, Seq<Posting>>> {
        self.fields.map().map_values(|t: StringMap<Vec<Posting>>| terms_view(t))
    }

    pub fn new() -> (r: Self)
        ensures
            r.postings() == Map::<Seq<char>, Map<Seq<char>, Seq<Posting>>>::empty(),
            r.fits_offsets(),
    {
        let r = PostingsBuilder { fields: StringMap::new() };
        proof {
            r.fields.lemma_entries();
        }
        assert(r.postings() =~= Map::<Seq<char>, Map<Seq<char>, Seq<Posting>>>::empty());
        r
    }

    /// Appends a posting of `term` in `field` for `doc_id`, its frequency
    /// taken from `positions`; a blank field or term is refused.
    pub fn add(&mut self, field: &str, term: &str, doc_id: u32, positions: Vec<u32>) -> (r: Result<(), PostingsError>)
        ensures
            is_blank(field@) ==> r == Err::<(), PostingsError>(PostingsError::EmptyField)
                && final(self).postings() == old(self).postings(),
            !is_blank(field@) && is_blank(term@) ==> r == Err::<(), PostingsError>(PostingsError::EmptyTerm)
                && final(self).postings() == old(self).postings(),
            !is_blank(field@) && !is_blank(term@) ==> r is Ok && final(self).postings() == old(self).postings().insert(
                field@,
                added_posting(
                    old(self).postings(),
                    field@,
                    term@,
                    Posting {
                        doc_id,
                        freq: if positions@.len() == 0 {
                            1
                        } else {
                            positions@.len() as u32
                        },
                    },
                ),
            ),
    {
        proof {
            use_type_invariant(&*self);
        }
        if blank(field) {
            return Err(PostingsError::EmptyField);
        }
        if blank(term) {
            return Err(PostingsError::EmptyTerm);
        }
        let freq = Posting::freq_from_positions(positions.as_slice());
        let ghost old_postings = self.postings();
        let mut fields = StringMap::new();
        std::mem::swap(&mut fields, &mut self.fields);
        let mut terms = match fields.remove(field) {
            Some(t) => t,
            None => StringMap::new(),
        };
        let ghost old_terms = terms;
        proof {
            if old(self).fields.map().contains_key(field@) {
                assert(terms_view(old_terms) == old_postings[field@]);
            } else {
                assert(terms_view(old_terms) =~= Map::<Seq<char>, Seq<Posting>>::empty());
            }
        }
        let mut list = match terms.remove(term) {
            Some(l) => l,
            None => Vec::new(),
        };
        let ghost old_list = list@;
        list.push(Posting::new(doc_id, freq));
        terms.insert(term, list);
        proof {
            assert(terms_view(terms) =~= terms_view(old_terms).insert(term@, old_list.push(Posting { doc_id, freq })));
        }
        fields.insert(field, terms);
        proof {
            assert forall|k: Seq<char>| #[trigger] fields.map().contains_key(k) implies fields.map()[k].wf() by {
                if k != field@ {
                    assert(old(self).fields.map().contains_key(k));
                }
            }
        }
        self.fields = fields;
        proof {
            assert(self.postings() =~= old_postings.insert(field@, terms_view(terms)));
        }
        Ok(())
    }
}

impl PostingsBuilder {
    /// Every field holds at most `u32::MAX` terms and `u32::MAX` postings,
    /// so that its offsets fit the `u32` offset tables.
    pub closed spec fn fits_offsets(&self) -> bool {
        forall|i: int|
            0 <= i < self.fields.entry_seq().len() ==> {
                let terms = #[trigger] self.fields.entry_seq()[i].1;
                &&& terms.entry_seq().len() <= u32::MAX
                &&& list_total(terms.entry_seq(), terms.entry_seq().len()) <= u32::MAX
            }
    }

    /// Whether every field fits the `u32` offset tables (see
    /// [`Self::fits_offsets`]), so that [`Self::build`] may be called.
    pub fn fits_offsets_check(&self) -> (r: bool)
        ensures
            r == self.fits_offsets(),
    {
        proof {
            use_type_invariant(self);
            self.fields.lemma_entries();
        }
        let fields = self.fields.entries();
        let ghost fs = self.fields.entry_seq();
        let mut i: usize = 0;
        while i < fields.len()
            invariant
                fields@ == fs,
                fs == self.fields.entry_seq(),
                self.fields.wf(),
                forall|k: Seq<char>| #[trigger] self.fields.map().contains_key(k) ==> self.fields.map()[k].wf(),
                i <= fs.len(),
                forall|a: int|
                    0 <= a < i ==> {
                        let terms = #[trigger] fs[a].1;
                        &&& terms.entry_seq().len() <= u32::MAX
                        &&& list_total(terms.entry_seq(), terms.entry_seq().len()) <= u32::MAX
                    },
            decreases fields.len() - i,
        {
            proof {
                self.fields.lemma_entries();
                assert(self.fields.map().contains_key(self.fields.names()[i as int]));
                assert(self.fields.map()[self.fields.names()[i as int]] == fs[i as int].1);
            }
            let terms = fields[i].1.entries();
            let ghost ts = fields@[i as int].1.entry_seq();
            if terms.len() > 0xFFFF_FFFF {
                proof {
                    assert(fs[i as int].1.entry_seq() == ts);
                }
                return false;
            }
            let mut total: u64 = 0;
            let mut j: usize = 0;
            while j < terms.len()
                invariant
                    terms@ == ts,
                    fs == self.fields.entry_seq(),
                    i < fs.len(),
                    fs[i as int].1.entry_seq() == ts,
                    j <= ts.len(),
                    total == list_total(ts, j as nat),
                    total <= 0xFFFF_FFFF,
                decreases terms.len() - j,
            {
                let len = terms[j].1.len() as u64;
                if len > 0xFFFF_FFFF - total {
                    proof {
                        assert(len == ts[j as int].1@.len());
                        assert(list_total(ts, (j + 1) as nat) == list_total(ts, j as nat) + ts[j as int].1@.len());
                        lemma_list_total_grows(ts, (j + 1) as nat, ts.len());
                        assert(list_total(ts, ts.len()) > u32::MAX);
                        let t = fs[i as int].1;
                        assert(!(list_total(t.entry_seq(), t.entry_seq().len()) <= u32::MAX));
                    }
                    return false;
                }
                total = total + len;
                j += 1;
            }
            i += 1;
        }
        true
    }

    /// The dictionary of the postings: per field an FST of its terms in
    /// order and, per term, its postings sorted by doc id with the
    /// postings of one doc id merged (see [`merges`]).
    pub fn build(self) -> (r: TermDictionary)
        requires
            self.fits_offsets(),
        ensures
            r.postings_view().dom() == self.postings().dom(),
            forall|f: Seq<char>|
                #[trigger] self.postings().contains_key(f) ==> r.postings_view()[f].dom() == self.postings()[f].dom()
                    && forall|t: Seq<char>|
                    #[trigger] self.postings()[f].contains_key(t) ==> merges(
                        r.postings_view()[f][t],
                        self.postings()[f][t],
                    ),
    {
        proof {
            use_type_invariant(&self);
            self.fields.lemma_entries();
        }
        let ghost src = self.fields;
        let ghost names = self.fields.names();
        let ghost es = self.fields.entry_seq();
        let ghost postings = self.postings();
        proof {
            assert forall|k: int| 0 <= k < es.len() implies (#[trigger] es[k]).1.entry_seq().len() <= u32::MAX
                && list_total(es[k].1.entry_seq(), es[k].1.entry_seq().len()) <= u32::MAX by {
                let terms = self.fields.entry_seq()[k].1;
            }
            assert forall|k: int| 0 <= k < es.len() implies (#[trigger] es[k]).1.wf() by {
                assert(self.fields.map().contains_key(names[k]));
            }
        }
        let entries = self.fields.into_entries();
        let n = entries.len();
        let mut built: Vec<(String, FieldPostings)> = Vec::new();
        let mut rest = entries;
        let mut i: usize = 0;
        while rest.len() > 0
            invariant
                n == es.len(),
                i + rest@.len() == n,
                rest@ == es.subrange(i as int, n as int),
                built@.len() == i,
                forall|k: int| 0 <= k < i ==> (#[trigger] built@[k]).0@ == names[k],
                forall|k: int| 0 <= k < i ==> (#[trigger] built@[k]).1.wf(),
                forall|k: int| 0 <= k < i ==> (#[trigger] built@[k]).1.term_seq() == es[k].1.names(),
                forall|k: int, j: int|
                    0 <= k < i && 0 <= j < (#[trigger] built@[k]).1.term_seq().len() ==> merges(
                        #[trigger] built@[k].1.list_seq()[j],
                        es[k].1.entry_seq()[j].1@,
                    ),
                forall|k: int| 0 <= k < n ==> (#[trigger] es[k]).1.wf(),
                forall|k: int| 0 <= k < n ==> #[trigger] es[k].0@ == names[k],
                forall|k: int|
                    0 <= k < n ==> (#[trigger] es[k]).1.entry_seq().len() <= u32::MAX && list_total(
                        es[k].1.entry_seq(),
                        es[k].1.entry_seq().len(),
                    ) <= u32::MAX,
            decreases rest.len(),
        {
            let (name, terms) = rest.remove(0);
            proof {
                assert(name@ == names[i as int]);
                let t = es[i as int].1;
                assert(t == terms);
            }
            let fp = FieldPostings::from_terms(terms);
            built.push((name, fp));
            i += 1;
        }
        proof {
            assert(built@.map_values(|e: (String, FieldPostings)| e.0@) =~= names);
        }
        let ghost bseq = built@;
        let fields = StringMap::from_entries(built);
        proof {
            fields.lemma_entries();
            assert(fields.names() =~= names);
            assert forall|k: Seq<char>| #[trigger] fields.map().contains_key(k) implies fields.map()[k].wf() by {
                let x = choose|x: int| 0 <= x < names.len() && names[x] == k;
                assert(fields.names()[x] == k);
            }
        }
        let r = TermDictionary::from_fields(fields);
        proof {
            assert(r.postings_view().dom() =~= postings.dom()) by {
                assert(fields.map().dom() == names.to_set());
                assert(src.map().dom() == names.to_set());
            }
            assert forall|f: Seq<char>| #[trigger] postings.contains_key(f) implies r.postings_view()[f].dom()
                == postings[f].dom() && forall|t: Seq<char>|
                #[trigger] postings[f].contains_key(t) ==> merges(r.postings_view()[f][t], postings[f][t]) by {
                let x = choose|x: int| 0 <= x < names.len() && names[x] == f;
                assert(fields.names()[x] == f);
                assert(fields.map()[f] == bseq[x].1);
                assert(src.map()[f] == es[x].1);
                let fp = bseq[x].1;
                let terms = es[x].1;
                fp.lemma_terms();
                terms.lemma_entries();
                assert(postings[f] == terms_view(terms));
                assert(r.postings_view()[f] == fp.term_map());
                assert(fp.term_map().dom() =~= postings[f].dom());
                assert forall|t: Seq<char>| #[trigger] postings[f].contains_key(t) implies merges(
                    r.postings_view()[f][t],
                    postings[f][t],
                ) by {
                    let j = choose|j: int| 0 <= j < terms.names().len() && terms.names()[j] == t;
                    assert(fp.term_seq()[j] == t);
                    assert(fp.term_map()[t] == fp.list_seq()[j]);
                    assert(terms.map()[t] == terms.entry_seq()[j].1);
                }
            }
        }
        r
    }
}

/// The terms of `field` after appending `p` to the postings of `term`.
pub open spec fn added_posting(
    postings: Map<Seq<char>, Map<Seq<char>, Seq<Posting>>>,
    field: Seq<char>,
    term: Seq<char>,
    p: Posting,
) -> Map<Seq<char>, Seq<Posting>> {
    let terms = if postings.contains_key(field) {
        postings[field]
    } else {
        Map::empty()
    };
    let list = if terms.contains_key(term) {
        terms[term]
    } else {
        Seq::empty()
    };
    terms.insert(term, list.push(p))
}

} // verus!

verus! {

// ----- memory accounting -----

/// Bytes counted per map entry of the builder: a `String` key and its
/// 24-byte value, with half as much again for the map's node slack (the
/// sizes of `String`, `Vec` and a map on a 64-bit target).
pub const ENTRY_BYTES: u64 = 72;

/// Bytes of one [`Posting`].
pub const POSTING_BYTES: u64 = 8;

pub open spec fn saturate(v: int) -> u64 {
    if v > u64::MAX {
        u64::MAX
    } else {
        v as u64
    }
}

/// What a term's entry costs: the entry, the term's bytes and its
/// postings' capacity, the latter saturated.
pub open spec fn terms_cost(terms: Seq<(String, Vec<Posting>)>, caps: Seq<nat>) -> int
    decreases terms.len(),
{
    if terms.len() == 0 {
        0
    } else {
        terms_cost(terms.drop_last(), caps.drop_last()) + ENTRY_BYTES + vstd::utf8::encode_utf8(terms.last().0@).len() + saturate(caps.last() * POSTING_BYTES)
    }
}

pub open spec fn fields_cost(fields: Seq<(String, StringMap<Vec<Posting>>)>, caps: Seq<Seq<nat>>) -> int
    decreases fields.len(),
{
    if fields.len() == 0 {
        0
    } else {
        fields_cost(fields.drop_last(), caps.drop_last()) + ENTRY_BYTES + vstd::utf8::encode_utf8(
            fields.last().0@,
        ).len() + terms_cost(fields.last().1.entry_seq(), caps.last())
    }
}

proof fn lemma_saturate_add(a: int, b: int)
    requires
        a >= 0,
        b >= 0,
    ensures
        (if saturate(a) + b > u64::MAX {
            u64::MAX
        } else {
            (saturate(a) + b) as u64
        }) == saturate(a + b),
{
}

proof fn lemma_terms_cost_nonneg(terms: Seq<(String, Vec<Posting>)>, caps: Seq<nat>)
    ensures
        terms_cost(terms, caps) >= 0,
    decreases terms.len(),
{
    if terms.len() > 0 {
        lemma_terms_cost_nonneg(terms.drop_last(), caps.drop_last());
    }
}

proof fn lemma_fields_cost_nonneg(fields: Seq<(String, StringMap<Vec<Posting>>)>, caps: Seq<Seq<nat>>)
    ensures
        fields_cost(fields, caps) >= 0,
    decreases fields.len(),
{
    if fields.len() > 0 {
        lemma_fields_cost_nonneg(fields.drop_last(), caps.drop_last());
        lemma_terms_cost_nonneg(fields.last().1.entry_seq(), caps.last());
    }
}

/// The capacity of a posting list.
///
/// Trusted: calls `Vec::capacity`, which std documents as the number of
/// elements the vector can hold without reallocating, never less than its
/// length. A vector's allocation, capacity times element size, never
/// exceeds `isize::MAX` bytes (std's allocation rule), and a `Posting`
/// (two `u32` fields, which do not overlap) takes at least
/// [`POSTING_BYTES`]. The exact capacity is the allocator's choice and is
/// left unstated.
#[verifier::external_body]
fn postings_capacity(v: &Vec<Posting>) -> (r: usize)
    ensures
        r >= v@.len(),
        r * vstd::layout::size_of::<Posting>() <= isize::MAX,
        r * POSTING_BYTES <= isize::MAX,
{
    v.capacity()
}

impl PostingsBuilder {
    /// `caps` gives, per field and term in order, a capacity no smaller
    /// than the term's posting count and whose allocation, at
    /// [`POSTING_BYTES`] per posting, stays within `isize::MAX` bytes.
    pub closed spec fn capacities_fit(&self, caps: Seq<Seq<nat>>) -> bool {
        &&& caps.len() == self.fields.entry_seq().len()
        &&& forall|i: int|
            0 <= i < caps.len() ==> (#[trigger] caps[i]).len() == self.fields.entry_seq()[i].1.entry_seq().len()
                && forall|j: int|
                0 <= j < caps[i].len() ==> caps[i][j] >= self.fields.entry_seq()[i].1.entry_seq()[j].1@.len()
                    && caps[i][j] * POSTING_BYTES <= isize::MAX
    }

    /// The estimate for capacities `caps`, saturated at `u64::MAX`.
    pub closed spec fn memory_estimate(&self, caps: Seq<Seq<nat>>) -> u64 {
        saturate(fields_cost(self.fields.entry_seq(), caps))
    }

    /// An estimate of the builder's heap size: per field and per term an
    /// entry, the name's bytes, and each posting list's capacity.
    pub fn memory_bytes(&self) -> (r: u64)
        ensures
            exists|caps: Seq<Seq<nat>>| self.capacities_fit(caps) && r == self.memory_estimate(caps),
    {
        proof {
            use_type_invariant(self);
        }
        let fields = self.fields.entries();
        let ghost fs = self.fields.entry_seq();
        let mut total: u64 = 0;
        let ghost mut caps: Seq<Seq<nat>> = Seq::empty();
        let mut i: usize = 0;
        while i < fields.len()
            invariant
                fields@ == fs,
                fs == self.fields.entry_seq(),
                self.fields.wf(),
                forall|k: Seq<char>| #[trigger] self.fields.map().contains_key(k) ==> self.fields.map()[k].wf(),
                i <= fs.len(),
                caps.len() == i,
                forall|a: int|
                    0 <= a < i ==> (#[trigger] caps[a]).len() == fs[a].1.entry_seq().len() && forall|b: int|
                        0 <= b < caps[a].len() ==> caps[a][b] >= fs[a].1.entry_seq()[b].1@.len()
                            && caps[a][b] * POSTING_BYTES <= isize::MAX,
                total == saturate(fields_cost(fs.subrange(0, i as int), caps)),
            decreases fields.len() - i,
        {
            let name = &fields[i].0;
            let terms_map = &fields[i].1;
            proof {
                self.fields.lemma_entries();
                assert(self.fields.map().contains_key(self.fields.names()[i as int]));
                assert(self.fields.map()[self.fields.names()[i as int]] == fs[i as int].1);
            }
            let terms = terms_map.entries();
            let ghost ts = terms_map.entry_seq();
            let ghost prefix_cost = fields_cost(fs.subrange(0, i as int), caps);
            let ghost base = prefix_cost + ENTRY_BYTES + vstd::utf8::encode_utf8(name@).len();
            proof {
                lemma_fields_cost_nonneg(fs.subrange(0, i as int), caps);
                lemma_saturate_add(prefix_cost, ENTRY_BYTES as int);
                lemma_saturate_add(prefix_cost + ENTRY_BYTES, vstd::utf8::encode_utf8(name@).len() as int);
                assert(terms_cost(ts.subrange(0, 0), Seq::<nat>::empty()) == 0);
            }
            let t1 = total.saturating_add(ENTRY_BYTES);
            assert(t1 == saturate(prefix_cost + ENTRY_BYTES));
            let nl = name.as_str().as_bytes().len() as u64;
            assert(nl == vstd::utf8::encode_utf8(name@).len());
            total = t1.saturating_add(nl);
            assert(total == saturate(base));
            assert(ts.subrange(0, 0) =~= Seq::<(String, Vec<Posting>)>::empty());
            let ghost mut tcaps: Seq<nat> = Seq::empty();
            let mut j: usize = 0;
            while j < terms.len()
                invariant
                    terms@ == ts,
                    j <= ts.len(),
                    tcaps.len() == j,
                    forall|b: int| 0 <= b < j ==> tcaps[b] >= ts[b].1@.len() && tcaps[b] * POSTING_BYTES <= isize::MAX,
                    base >= 0,
                    total == saturate(base + terms_cost(ts.subrange(0, j as int), tcaps)),
                decreases terms.len() - j,
            {
                let ghost prev = base + terms_cost(ts.subrange(0, j as int), tcaps);
                let ghost tlen = vstd::utf8::encode_utf8(terms@[j as int].0@).len();
                proof {
                    lemma_terms_cost_nonneg(ts.subrange(0, j as int), tcaps);
                }
                let cap = postings_capacity(&terms[j].1) as u64;
                let bytes: u64 = if cap > u64::MAX / POSTING_BYTES {
                    u64::MAX
                } else {
                    cap * POSTING_BYTES
                };
                proof {
                    lemma_saturate_add(prev, ENTRY_BYTES as int);
                    lemma_saturate_add(prev + ENTRY_BYTES, tlen as int);
                    lemma_saturate_add(prev + ENTRY_BYTES + tlen, bytes as int);
                }
                let u1 = total.saturating_add(ENTRY_BYTES);
                assert(u1 == saturate(prev + ENTRY_BYTES));
                let tl = terms[j].0.as_str().as_bytes().len() as u64;
                assert(tl == tlen);
                let u2 = u1.saturating_add(tl);
                assert(u2 == saturate(prev + ENTRY_BYTES + tlen));
                total = u2.saturating_add(bytes);
                assert(total == saturate(prev + ENTRY_BYTES + tlen + bytes));
                proof {
                    let old_tcaps = tcaps;
                    tcaps = tcaps.push(cap as nat);
                    assert(ts.subrange(0, j + 1).drop_last() =~= ts.subrange(0, j as int));
                    assert(tcaps.drop_last() =~= old_tcaps);
                    assert(bytes == saturate(cap * POSTING_BYTES));
                }
                j += 1;
            }
            proof {
                let old_caps = caps;
                caps = caps.push(tcaps);
                assert(ts.subrange(0, j as int) =~= ts);
                assert(fs.subrange(0, i + 1).drop_last() =~= fs.subrange(0, i as int));
                assert(caps.drop_last() =~= old_caps);
                assert(fs[i as int].1.entry_seq() == ts);
            }
            i += 1;
        }
        proof {
            assert(fs.subrange(0, i as int) =~= fs);
            assert(self.capacities_fit(caps));
        }
        total
    }
}

// ----- the on-disk entry of a term -----

/// Where a term's postings and block directory lie in a segment.
#[derive(Debug, Clone, Copy, PartialEq, Eq, Structural)]
pub struct TermEntry {
    pub postings_offset: u64,
    pub postings_len: u32,
    pub postings_count: u32,
    pub block_dir_offset: u64,
    pub block_dir_count: u32,
}

impl TermEntry {
    /// Checks an entry before its payload is read: a zero-length payload
    /// means no coverage when its offset is zero too and corruption
    /// otherwise; a payload needs at least two bytes per posting.
    pub fn validate(&self) -> (r: Result<(), PostingsReadError>)
        ensures
            r == (if self.postings_len == 0 {
                if self.postings_offset == 0 {
                    Err(PostingsReadError::MissingCoverage)
                } else {
                    Err(PostingsReadError::Corrupt)
                }
            } else if self.postings_count == 0 || 2 * self.postings_count > self.postings_len {
                Err(PostingsReadError::Corrupt)
            } else {
                Ok(())
            }),
    {
        if self.postings_len == 0 {
            return if self.postings_offset == 0 {
                Err(PostingsReadError::MissingCoverage)
            } else {
                Err(PostingsReadError::Corrupt)
            };
        }
        if self.postings_count == 0 || (self.postings_count as u64) * 2 > self.postings_len as u64 {
            return Err(PostingsReadError::Corrupt);
        }
        Ok(())
    }
}

/// `n` bytes of `v`, least significant first.
pub open spec fn le_bytes(v: nat, n: nat) -> Seq<u8>
    decreases n,
{
    if n == 0 {
        Seq::empty()
    } else {
        seq![(v % 256) as u8] + le_bytes(v / 256, (n - 1) as nat)
    }
}

/// The number whose bytes, least significant first, are `s`.
pub open spec fn le_value(s: Seq<u8>) -> nat
    decreases s.len(),
{
    if s.len() == 0 {
        0
    } else {
        (s[0] + 256 * le_value(s.drop_first())) as nat
    }
}

pub open spec fn pow256(n: nat) -> nat
    decreases n,
{
    if n == 0 {
        1
    } else {
        256 * pow256((n - 1) as nat)
    }
}

/// The 28 bytes of an entry: each field little-endian, in declaration
/// order, no padding.
pub open spec fn term_entry_bytes(e: TermEntry) -> Seq<u8> {
    le_bytes(e.postings_offset as nat, 8) + le_bytes(e.postings_len as nat, 4) + le_bytes(
        e.postings_count as nat,
        4,
    ) + le_bytes(e.block_dir_offset as nat, 8) + le_bytes(e.block_dir_count as nat, 4)
}

/// Reading back little-endian bytes gives the number, when it fits.
pub proof fn lemma_le_round_trip(v: nat, n: nat)
    requires
        v < pow256(n),
    ensures
        le_bytes(v, n).len() == n,
        le_value(le_bytes(v, n)) == v,
    decreases n,
{
    if n > 0 {
        assert(v / 256 < pow256((n - 1) as nat)) by (nonlinear_arith)
            requires
                v < 256 * pow256((n - 1) as nat),
        ;
        lemma_le_round_trip(v / 256, (n - 1) as nat);
        assert(le_bytes(v, n).drop_first() =~= le_bytes(v / 256, (n - 1) as nat));
    }
}

fn write_le(buf: &mut [u8; 28], at: usize, v: u64, n: usize)
    requires
        at + n <= 28,
        n <= 8,
    ensures
        final(buf)@.len() == 28,
        final(buf)@.subrange(at as int, at + n) == le_bytes(v as nat, n as nat),
        forall|k: int| 0 <= k < 28 && !(at <= k < at + n) ==> final(buf)@[k] == old(buf)@[k],
{
    let mut x = v;
    let mut k: usize = 0;
    while k < n
        invariant
            k <= n <= 8,
            at + n <= 28,
            buf@.len() == 28,
            le_bytes(v as nat, n as nat) == buf@.subrange(at as int, at + k) + le_bytes(x as nat, (n - k) as nat),
            forall|m: int| 0 <= m < 28 && !(at <= m < at + k) ==> buf@[m] == old(buf)@[m],
        decreases n - k,
    {
        let ghost before = buf@;
        buf[at + k] = (x % 256) as u8;
        proof {
            assert(buf@.subrange(at as int, at + k + 1) =~= before.subrange(at as int, at + k).push((x % 256) as u8));
            assert(le_bytes(x as nat, (n - k) as nat) =~= seq![(x % 256) as u8] + le_bytes((x / 256) as nat, (n - k - 1) as nat));
        }
        x = x / 256;
        k += 1;
    }
    assert(le_bytes(x as nat, 0) =~= Seq::<u8>::empty());
    assert(buf@.subrange(at as int, at + n) =~= le_bytes(v as nat, n as nat));
}

/// Packs an entry into its 28 bytes.
pub fn encode_term_entry(entry: &TermEntry) -> (r: [u8; 28])
    ensures
        r@ == term_entry_bytes(*entry),
{
    let mut buf = [0u8; 28];
    write_le(&mut buf, 0, entry.postings_offset, 8);
    let ghost b0 = buf@;
    write_le(&mut buf, 8, entry.postings_len as u64, 4);
    let ghost b1 = buf@;
    write_le(&mut buf, 12, entry.postings_count as u64, 4);
    let ghost b2 = buf@;
    write_le(&mut buf, 16, entry.block_dir_offset, 8);
    let ghost b3 = buf@;
    write_le(&mut buf, 24, entry.block_dir_count as u64, 4);
    proof {
        assert(buf@.subrange(0, 8) =~= b0.subrange(0, 8));
        assert(buf@.subrange(8, 12) =~= b1.subrange(8, 12));
        assert(buf@.subrange(12, 16) =~= b2.subrange(12, 16));
        assert(buf@.subrange(16, 24) =~= b3.subrange(16, 24));
        assert(buf@ =~= buf@.subrange(0, 8) + buf@.subrange(8, 12) + buf@.subrange(12, 16) + buf@.subrange(16, 24)
            + buf@.subrange(24, 28));
    }
    buf
}

pub(crate) fn read_le(bytes: &[u8], at: usize, n: usize) -> (r: u64)
    requires
        at + n <= bytes@.len(),
        n <= 8,
    ensures
        r == le_value(bytes@.subrange(at as int, at + n)),
{
    let mut acc: u64 = 0;
    let mut k: usize = n;
    proof {
        assert(bytes@.subrange(at + n, at + n) =~= Seq::<u8>::empty());
        reveal_with_fuel(pow256, 9);
    }
    while k > 0
        invariant
            k <= n <= 8,
            at + n <= bytes@.len(),
            bytes@.len() == bytes.len(),
            acc == le_value(bytes@.subrange(at + k, at + n)),
            acc < pow256((n - k) as nat),
            pow256(8) == 0x1_0000_0000_0000_0000,
        decreases k,
    {
        k -= 1;
        let b = bytes[at + k];
        proof {
            let s = bytes@.subrange(at + k, at + n);
            assert(s.drop_first() =~= bytes@.subrange(at + k + 1, at + n));
            lemma_pow256_le((n - k - 1) as nat);
            assert(b + 256 * acc < pow256((n - k) as nat)) by (nonlinear_arith)
                requires
                    acc < pow256((n - k - 1) as nat),
                    b < 256,
                    pow256((n - k) as nat) == 256 * pow256((n - k - 1) as nat),
            ;
        }
        acc = b as u64 + 256 * acc;
    }
    acc
}

proof fn lemma_pow256_le(i: nat)
    requires
        i < 8,
    ensures
        256 * pow256(i) <= 0x1_0000_0000_0000_0000,
        pow256(i + 1) == 256 * pow256(i),
    decreases i,
{
    reveal_with_fuel(pow256, 9);
    if i > 0 {
        lemma_pow256_le((i - 1) as nat);
    }
}

/// Unpacks an entry from its 28 bytes; `None` when fewer are given.
pub fn decode_term_entry(bytes: &[u8]) -> (r: Option<TermEntry>)
    ensures
        bytes@.len() < 28 ==> r is None,
        bytes@.len() >= 28 ==> (r matches Some(e) && e.postings_offset == le_value(bytes@.subrange(0, 8))
            && e.postings_len == le_value(bytes@.subrange(8, 12)) && e.postings_count == le_value(
            bytes@.subrange(12, 16),
        ) && e.block_dir_offset == le_value(bytes@.subrange(16, 24)) && e.block_dir_count == le_value(
            bytes@.subrange(24, 28),
        )),
{
    if bytes.len() < 28 {
        return None;
    }
    proof {
        reveal_with_fuel(pow256, 9);
    }
    let postings_offset = read_le(bytes, 0, 8);
    let postings_len = read_le(bytes, 8, 4);
    let postings_count = read_le(bytes, 12, 4);
    let block_dir_offset = read_le(bytes, 16, 8);
    let block_dir_count = read_le(bytes, 24, 4);
    proof {
        lemma_le_bound(bytes@.subrange(8, 12));
        lemma_le_bound(bytes@.subrange(12, 16));
        lemma_le_bound(bytes@.subrange(24, 28));
    }
    Some(
        TermEntry {
            postings_offset,
            postings_len: postings_len as u32,
            postings_count: postings_count as u32,
            block_dir_offset,
            block_dir_count: block_dir_count as u32,
        },
    )
}

pub(crate) proof fn lemma_le_bound(s: Seq<u8>)
    ensures
        le_value(s) < pow256(s.len()),
    decreases s.len(),
{
    if s.len() > 0 {
        lemma_le_bound(s.drop_first());
        let p = pow256((s.len() - 1) as nat);
        let x = le_value(s.drop_first());
        assert(s[0] + 256 * x < 256 * p) by (nonlinear_arith)
            requires
                x < p,
                s[0] < 256,
        ;
    }
}

/// An entry packed and unpacked is the entry it was.
pub proof fn law_term_entry_round_trip(e: TermEntry)
    ensures
        term_entry_bytes(e).len() == 28,
        le_value(term_entry_bytes(e).subrange(0, 8)) == e.postings_offset,
        le_value(term_entry_bytes(e).subrange(8, 12)) == e.postings_len,
        le_value(term_entry_bytes(e).subrange(12, 16)) == e.postings_count,
        le_value(term_entry_bytes(e).subrange(16, 24)) == e.block_dir_offset,
        le_value(term_entry_bytes(e).subrange(24, 28)) == e.block_dir_count,
{
    reveal_with_fuel(pow256, 9);
    lemma_le_round_trip(e.postings_offset as nat, 8);
    lemma_le_round_trip(e.postings_len as nat, 4);
    lemma_le_round_trip(e.postings_count as nat, 4);
    lemma_le_round_trip(e.block_dir_offset as nat, 8);
    lemma_le_round_trip(e.block_dir_count as nat, 4);
    let s = term_entry_bytes(e);
    assert(s.subrange(0, 8) =~= le_bytes(e.postings_offset as nat, 8));
    assert(s.subrange(8, 12) =~= le_bytes(e.postings_len as nat, 4));
    assert(s.subrange(12, 16) =~= le_bytes(e.postings_count as nat, 4));
    assert(s.subrange(16, 24) =~= le_bytes(e.block_dir_offset as nat, 8));
    assert(s.subrange(24, 28) =~= le_bytes(e.block_dir_count as nat, 4));
}

} // verus!

verus! {

// ----- views over a term's postings -----

/// A term's postings: the ascending doc ids, their frequencies, the
/// block-max statistics and, for frequent terms, a roaring set.
#[derive(Clone, Copy)]
pub struct PostingsList<'a> {
    doc_ids: &'a [u32],
    freqs: &'a [u32],
    block_metas: &'a [BlockMeta],
    roaring: Option<&'a RoaringDocSet>,
}

impl<'a> PostingsList<'a> {
    pub fn new(
        doc_ids: &'a [u32],
        freqs: &'a [u32],
        block_metas: &'a [BlockMeta],
        roaring: Option<&'a RoaringDocSet>,
    ) -> (r: Self)
        ensures
            r.doc_ids_view() == doc_ids@,
            r.freqs_view() == freqs@,
            r.block_metas_view() == block_metas@,
            r.roaring_view() == roaring,
    {
        PostingsList { doc_ids, freqs, block_metas, roaring }
    }

    pub closed spec fn doc_ids_view(&self) -> Seq<u32> {
        self.doc_ids@
    }

    pub closed spec fn freqs_view(&self) -> Seq<u32> {
        self.freqs@
    }

    pub closed spec fn block_metas_view(&self) -> Seq<BlockMeta> {
        self.block_metas@
    }

    pub closed spec fn roaring_view(&self) -> Option<&'a RoaringDocSet> {
        self.roaring
    }

    /// The ascending doc ids.
    pub fn doc_ids(&self) -> (r: &'a [u32])
        ensures
            r@ == self.doc_ids_view(),
    {
        self.doc_ids
    }

    /// The frequencies, aligned with [`Self::doc_ids`].
    pub fn freqs(&self) -> (r: &'a [u32])
        ensures
            r@ == self.freqs_view(),
    {
        self.freqs
    }

    /// The roaring set, present for frequent terms.
    pub fn roaring(&self) -> (r: Option<&'a RoaringDocSet>)
        ensures
            r == self.roaring_view(),
    {
        self.roaring
    }

    pub fn block_metas(&self) -> (r: &'a [BlockMeta])
        ensures
            r@ == self.block_metas_view(),
    {
        self.block_metas
    }

    /// The number of postings: the length of the doc id channel.
    pub fn doc_freq_from_block_metas(&self) -> (r: usize)
        ensures
            r == self.doc_ids_view().len(),
    {
        self.doc_ids.len()
    }
}

/// The terms of a field, handed out in order.
#[derive(Debug, Clone)]
pub struct TermsEnum {
    terms: Vec<String>,
    position: usize,
}

impl TermsEnum {
    pub fn new(terms: Vec<String>) -> (r: Self)
        ensures
            r.wf(),
            r.remaining() == terms@.map_values(|t: String| t@),
    {
        let r = TermsEnum { terms, position: 0 };
        assert(r.remaining() =~= terms@.map_values(|t: String| t@));
        r
    }

    /// The terms not handed out yet.
    pub closed spec fn remaining(&self) -> Seq<Seq<char>> {
        self.terms@.subrange(self.position as int, self.terms@.len() as int).map_values(|t: String| t@)
    }

    pub closed spec fn wf(&self) -> bool {
        self.position <= self.terms@.len()
    }

    /// The next term, or `None` once all were handed out.
    pub fn next(&mut self) -> (r: Option<String>)
        requires
            old(self).wf(),
        ensures
            final(self).wf(),
            old(self).remaining().len() == 0 ==> r is None && final(self).remaining() == old(self).remaining(),
            old(self).remaining().len() > 0 ==> (r matches Some(t) && t@ == old(self).remaining()[0]
                && final(self).remaining() == old(self).remaining().drop_first()),
    {
        if self.position >= self.terms.len() {
            return None;
        }
        let term = self.terms[self.position].clone();
        let ghost old_rem = self.remaining();
        self.position += 1;
        assert(self.remaining() =~= old_rem.drop_first());
        Some(term)
    }
}

/// The postings of a term, handed out in order.
#[derive(Debug, Clone)]
pub struct PostingsEnum<'a> {
    doc_ids: &'a [u32],
    freqs: &'a [u32],
    position: usize,
}

impl<'a> PostingsEnum<'a> {
    pub fn new(doc_ids: &'a [u32], freqs: &'a [u32]) -> (r: Self)
        requires
            doc_ids@.len() == freqs@.len(),
        ensures
            r.wf(),
            r.remaining() == Seq::new(doc_ids@.len(), |i: int| Posting { doc_id: doc_ids@[i], freq: freqs@[i] }),
    {
        let r = PostingsEnum { doc_ids, freqs, position: 0 };
        assert(r.remaining() =~= Seq::new(doc_ids@.len(), |i: int| Posting { doc_id: doc_ids@[i], freq: freqs@[i] }));
        r
    }

    pub closed spec fn wf(&self) -> bool {
        self.position <= self.doc_ids@.len() && self.doc_ids@.len() == self.freqs@.len()
    }

    /// The postings not handed out yet.
    pub closed spec fn remaining(&self) -> Seq<Posting> {
        Seq::new(
            (self.doc_ids@.len() - self.position) as nat,
            |i: int| Posting { doc_id: self.doc_ids@[self.position + i], freq: self.freqs@[self.position + i] },
        )
    }

    /// The next posting, or `None` once all were handed out.
    pub fn next(&mut self) -> (r: Option<Posting>)
        requires
            old(self).wf(),
        ensures
            final(self).wf(),
            old(self).remaining().len() == 0 ==> r is None && final(self).remaining() == old(self).remaining(),
            old(self).remaining().len() > 0 ==> r == Some(old(self).remaining()[0]) && final(self).remaining()
                == old(self).remaining().drop_first(),
    {
        if self.position >= self.doc_ids.len() {
            return None;
        }
        let p = Posting::new(self.doc_ids[self.position], self.freqs[self.position]);
        let ghost old_rem = self.remaining();
        self.position += 1;
        assert(self.remaining() =~= old_rem.drop_first());
        Some(p)
    }
}

} // verus!
