//! A roaring-style set of doc ids for conjunctions over frequent terms:
//! doc ids are split on their high 16 bits into chunks; a chunk holding
//! many ids is a 65 536-bit bitmap, a sparse one a sorted array of low bits.

use vstd::prelude::*;

verus! {

/// Words of a bitmap chunk: 65 536 bits.
pub const WORDS_PER_CHUNK: usize = 1024;

/// A chunk with more ids than this is stored as a bitmap.
pub const DENSE_THRESHOLD: usize = 4096;

/// Strictly ascending.
pub open spec fn ascending(s: Seq<u32>) -> bool {
    forall|i: int, j: int| 0 <= i < j < s.len() ==> s[i] < s[j]
}

pub open spec fn ascending16(s: Seq<u16>) -> bool {
    forall|i: int, j: int| 0 <= i < j < s.len() ==> s[i] < s[j]
}

/// The chunk key of a doc id: its high 16 bits.
pub open spec fn high(d: u32) -> u16 {
    (d / 65536) as u16
}

/// The position of a doc id in its chunk: its low 16 bits.
pub open spec fn low(d: u32) -> u16 {
    (d % 65536) as u16
}

pub open spec fn compose(key: u16, lo: u16) -> u32 {
    (key * 65536 + lo) as u32
}

/// Bit `b` of `w` is set.
pub open spec fn bit_set(w: u64, b: u64) -> bool {
    (w >> b) & 1u64 == 1u64
}

/// A bitmap chunk holds `lo`.
pub open spec fn bitmap_has(words: Seq<u64>, lo: u16) -> bool {
    bit_set(words[(lo / 64) as int], (lo % 64) as u64)
}

#[derive(Debug, Clone)]
enum Container {
    /// Low bits, strictly ascending.
    Array(Vec<u16>),
    /// One bit per low value.
    Bitmap(Vec<u64>),
}

spec fn container_wf(c: Container) -> bool {
    match c {
        Container::Array(a) => ascending16(a@),
        Container::Bitmap(w) => w@.len() == WORDS_PER_CHUNK,
    }
}

spec fn container_has(c: Container, lo: u16) -> bool {
    match c {
        Container::Array(a) => a@.contains(lo),
        Container::Bitmap(w) => bitmap_has(w@, lo),
    }
}

proof fn lemma_compose(key: u16, lo: u16)
    ensures
        high(compose(key, lo)) == key,
        low(compose(key, lo)) == lo,
        compose(key, lo) == key * 65536 + lo,
{
    assert(key * 65536 + lo < 0x1_0000_0000) by (nonlinear_arith)
        requires
            key < 65536,
            lo < 65536,
    ;
    assert((key * 65536 + lo) / 65536 == key) by (nonlinear_arith)
        requires
            key < 65536,
            lo < 65536,
    ;
    assert((key * 65536 + lo) % 65536 == lo) by (nonlinear_arith)
        requires
            key < 65536,
            lo < 65536,
    ;
}

proof fn lemma_split(d: u32)
    ensures
        compose(high(d), low(d)) == d,
        d == high(d) * 65536 + low(d),
{
    assert(d == (d / 65536) * 65536 + d % 65536);
    lemma_compose(high(d), low(d));
}

proof fn lemma_order(a: u32, b: u32)
    ensures
        a < b <==> (high(a) < high(b) || (high(a) == high(b) && low(a) < low(b))),
{
    lemma_split(a);
    lemma_split(b);
    assert(high(a) < high(b) ==> a < b) by (nonlinear_arith)
        requires
            a == high(a) * 65536 + low(a),
            b == high(b) * 65536 + low(b),
            low(a) < 65536,
    ;
    assert(high(a) > high(b) ==> a > b) by (nonlinear_arith)
        requires
            a == high(a) * 65536 + low(a),
            b == high(b) * 65536 + low(b),
            low(b) < 65536,
    ;
}

proof fn lemma_set_bit(x: u64, b: u64, c: u64)
    requires
        b < 64,
        c < 64,
    ensures
        bit_set(x | (1u64 << b), c) <==> (bit_set(x, c) || c == b),
{
    assert(((x | (1u64 << b)) >> c) & 1u64 == 1u64 <==> (((x >> c) & 1u64 == 1u64) || c == b)) by (bit_vector)
        requires
            b < 64,
            c < 64,
    ;
}

proof fn lemma_and_bit(x: u64, y: u64, c: u64)
    requires
        c < 64,
    ensures
        bit_set(x & y, c) <==> (bit_set(x, c) && bit_set(y, c)),
{
    assert(((x & y) >> c) & 1u64 == 1u64 <==> (((x >> c) & 1u64 == 1u64) && ((y >> c) & 1u64 == 1u64))) by (bit_vector)
        requires
            c < 64,
    ;
}

proof fn lemma_zero_bits(c: u64)
    requires
        c < 64,
    ensures
        !bit_set(0u64, c),
{
    assert((0u64 >> c) & 1u64 != 1u64) by (bit_vector);
}

proof fn lemma_bitmap_insert(before: Seq<u64>, idx: int, b: u64, lo: u16, x: u16)
    requires
        before.len() == WORDS_PER_CHUNK,
        idx == lo / 64,
        b == lo % 64,
    ensures
        bitmap_has(before.update(idx, before[idx] | (1u64 << b)), x) <==> (bitmap_has(before, x) || x == lo),
{
    let after = before.update(idx, before[idx] | (1u64 << b));
    let xi = (x / 64) as int;
    let c = (x % 64) as u64;
    if xi == idx {
        lemma_set_bit(before[idx], b, c);
        assert(x == xi * 64 + c);
        assert(lo == idx * 64 + b);
    } else {
        assert(after[xi] == before[xi]);
        assert(x != lo);
    }
}

/// A bitmap chunk holding the low bits of `run`.
fn bitmap_of(run: &[u32], start: usize, end: usize) -> (r: Vec<u64>)
    requires
        start <= end <= run@.len(),
    ensures
        r@.len() == WORDS_PER_CHUNK,
        forall|lo: u16| bitmap_has(r@, lo) <==> exists|k: int| start <= k < end && low(#[trigger] run@[k]) == lo,
{
    let mut words: Vec<u64> = Vec::new();
    let mut w: usize = 0;
    while w < WORDS_PER_CHUNK
        invariant
            w <= WORDS_PER_CHUNK,
            words@.len() == w,
            forall|k: int| 0 <= k < w ==> words@[k] == 0u64,
        decreases WORDS_PER_CHUNK - w,
    {
        words.push(0u64);
        w += 1;
    }
    proof {
        assert forall|lo: u16| !bitmap_has(words@, lo) by {
            lemma_zero_bits((lo % 64) as u64);
        }
    }
    let mut k: usize = start;
    while k < end
        invariant
            start <= k <= end <= run@.len(),
            words@.len() == WORDS_PER_CHUNK,
            forall|lo: u16| bitmap_has(words@, lo) <==> exists|m: int| start <= m < k && low(#[trigger] run@[m]) == lo,
        decreases end - k,
    {
        let d = run[k];
        let lo = (d % 65536) as u16;
        let idx = (lo / 64) as usize;
        let b = (lo % 64) as u64;
        let ghost before = words@;
        let nw = words[idx] | (1u64 << b);
        words.set(idx, nw);
        proof {
            assert forall|x: u16| bitmap_has(words@, x) <==> (bitmap_has(before, x) || x == lo) by {
                lemma_bitmap_insert(before, idx as int, b, lo, x);
            }
            assert forall|x: u16| bitmap_has(words@, x) <==> exists|m: int| start <= m < k + 1 && low(#[trigger] run@[m]) == x by {
                if exists|m: int| start <= m < k + 1 && low(#[trigger] run@[m]) == x {
                    let m = choose|m: int| start <= m < k + 1 && low(#[trigger] run@[m]) == x;
                    if m < k {
                        assert(bitmap_has(before, x));
                    } else {
                        assert(x == lo);
                    }
                }
                if bitmap_has(words@, x) {
                    if x == lo {
                        assert(start <= k < k + 1 && low(run@[k as int]) == x);
                    } else {
                        assert(bitmap_has(before, x));
                        let m = choose|m: int| start <= m < k && low(#[trigger] run@[m]) == x;
                        assert(start <= m < k + 1 && low(run@[m]) == x);
                    }
                }
            }
        }
        k += 1;
    }
    words
}

/// An array chunk holding the low bits of `run`.
fn array_of(run: &[u32], start: usize, end: usize) -> (r: Vec<u16>)
    requires
        start <= end <= run@.len(),
    ensures
        r@.len() == end - start,
        forall|k: int| 0 <= k < end - start ==> r@[k] == low(#[trigger] run@[start + k]),
{
    let mut out: Vec<u16> = Vec::new();
    let mut k: usize = start;
    while k < end
        invariant
            start <= k <= end <= run@.len(),
            out@.len() == k - start,
            forall|m: int| 0 <= m < k - start ==> out@[m] == low(#[trigger] run@[start + m]),
        decreases end - k,
    {
        out.push((run[k] % 65536) as u16);
        k += 1;
    }
    out
}

} // verus!

verus! {

/// `lo` is among the first `p` values of `arr`.
#[verifier::opaque]
spec fn in_prefix(arr: Seq<u16>, p: int, lo: u16) -> bool {
    exists|x: int| 0 <= x < p && arr[x] == lo
}

proof fn lemma_in_prefix_step(arr: Seq<u16>, p: int, lo: u16)
    requires
        0 <= p < arr.len(),
    ensures
        in_prefix(arr, p + 1, lo) <==> (in_prefix(arr, p, lo) || arr[p] == lo),
{
    reveal(in_prefix);
    if in_prefix(arr, p + 1, lo) {
        let x = choose|x: int| 0 <= x < p + 1 && arr[x] == lo;
        if x < p {
            assert(in_prefix(arr, p, lo));
        }
    }
    if in_prefix(arr, p, lo) {
        let x = choose|x: int| 0 <= x < p && arr[x] == lo;
        assert(0 <= x < p + 1 && arr[x] == lo);
    }
    if arr[p] == lo {
        assert(0 <= p < p + 1 && arr[p] == lo);
    }
}

proof fn lemma_in_prefix_all(arr: Seq<u16>, lo: u16)
    ensures
        in_prefix(arr, arr.len() as int, lo) <==> arr.contains(lo),
{
    reveal(in_prefix);
}

/// `d` occurs in `s` at or after `from`.
#[verifier::opaque]
spec fn emitted(s: Seq<u32>, from: int, d: u32) -> bool {
    exists|i: int| from <= i < s.len() && s[i] == d
}

/// What appending a chunk's matches to `old` must give: `old`, then the
/// matched ids of chunk `key` ascending; an id of the chunk is there exactly
/// when both containers hold its low bits.
spec fn appended_chunk(old: Seq<u32>, new: Seq<u32>, key: u16, a: Container, b: Container) -> bool {
    &&& new.len() >= old.len()
    &&& new.subrange(0, old.len() as int) == old
    &&& forall|i: int, j: int| old.len() <= i < j < new.len() ==> new[i] < new[j]
    &&& forall|i: int| old.len() <= i < new.len() ==> high(#[trigger] new[i]) == key
    &&& forall|lo: u16|
        #[trigger] emitted(new, old.len() as int, compose(key, lo)) <==> (
        container_has(a, lo) && container_has(b, lo))
}

proof fn lemma_append_one(old: Seq<u32>, mid: Seq<u32>, key: u16, lo: u16)
    requires
        mid.len() >= old.len(),
        mid.subrange(0, old.len() as int) == old,
    ensures
        mid.push(compose(key, lo)).subrange(0, old.len() as int) == old,
        forall|x: u16|
            emitted(mid.push(compose(key, lo)), old.len() as int, compose(key, x))
                <==> (emitted(mid, old.len() as int, compose(key, x)) || x == lo),
{
    reveal(emitted);
    let n = mid.push(compose(key, lo));
    assert(n.subrange(0, old.len() as int) =~= mid.subrange(0, old.len() as int));
    assert forall|x: u16|
        emitted(n, old.len() as int, compose(key, x))
            <==> (emitted(mid, old.len() as int, compose(key, x)) || x == lo) by {
        lemma_compose(key, x);
        lemma_compose(key, lo);
        if exists|i: int| old.len() <= i < mid.len() + 1 && #[trigger] n[i] == compose(key, x) {
            let i = choose|i: int| old.len() <= i < mid.len() + 1 && #[trigger] n[i] == compose(key, x);
            if i < mid.len() {
                assert(mid[i] == compose(key, x));
            }
        }
        if exists|i: int| old.len() <= i < mid.len() && #[trigger] mid[i] == compose(key, x) {
            let i = choose|i: int| old.len() <= i < mid.len() && #[trigger] mid[i] == compose(key, x);
            assert(n[i] == compose(key, x));
        }
        if x == lo {
            assert(n[mid.len() as int] == compose(key, x));
        }
    }
}

/// Appends the matches of an array chunk against another chunk: the array
/// drives, probing a bitmap or merging with another array.
fn intersect_array(key: u16, arr: &Vec<u16>, this: &Container, other: &Container, out: &mut Vec<u32>)
    requires
        *this == Container::Array(*arr),
        container_wf(*this),
        container_wf(*other),
    ensures
        appended_chunk(old(out)@, final(out)@, key, *this, *other),
{
    let ghost start = out@;
    assert(out@.subrange(0, start.len() as int) =~= start);
    proof {
        assert forall|lo: u16| !#[trigger] emitted(out@, start.len() as int, compose(key, lo)) by {
            reveal(emitted);
        }
    }
    proof {
        assert forall|lo: u16| !#[trigger] in_prefix(arr@, 0, lo) by {
            reveal(in_prefix);
        }
    }
    match other {
        Container::Bitmap(words) => {
            let mut p: usize = 0;
            while p < arr.len()
                invariant
                    p <= arr@.len(),
                    ascending16(arr@),
                    words@.len() == WORDS_PER_CHUNK,
                    out@.len() >= start.len(),
                    out@.subrange(0, start.len() as int) == start,
                    forall|i: int, j: int| start.len() <= i < j < out@.len() ==> out@[i] < out@[j],
                    forall|i: int|
                        start.len() <= i < out@.len() ==> high(#[trigger] out@[i]) == key && (p < arr@.len()
                            ==> low(out@[i]) < arr@[p as int]),
                    forall|lo: u16|
                        #[trigger] emitted(out@, start.len() as int, compose(key, lo)) <==> (
                        in_prefix(arr@, p as int, lo) && bitmap_has(words@, lo)),
                decreases arr.len() - p,
            {
                let lo = arr[p];
                let idx = (lo / 64) as usize;
                let bit = (lo % 64) as u64;
                let ghost before = out@;
                let present = (words[idx] >> bit) & 1 == 1;
                assert(present == bitmap_has(words@, lo));
                if present {
                    let d = key as u32 * 65536 + lo as u32;
                    proof {
                        lemma_compose(key, lo);
                    }
                    out.push(d);
                    proof {
                        lemma_append_one(start, before, key, lo);
                        assert forall|i: int, j: int| start.len() <= i < j < out@.len() implies out@[i] < out@[j] by {
                            if j == out@.len() - 1 {
                                lemma_order(before[i], d);
                            } else {
                                assert(out@[i] == before[i] && out@[j] == before[j]);
                            }
                        }
                    }
                }
                proof {
                    assert forall|i: int|
                        start.len() <= i < out@.len() implies high(#[trigger] out@[i]) == key && (p + 1 < arr@.len()
                            ==> low(out@[i]) < arr@[p + 1]) by {
                        if p + 1 < arr@.len() {
                            assert(arr@[p as int] < arr@[p + 1]);
                        }
                        if i < before.len() {
                            assert(out@[i] == before[i]);
                        }
                    }
                    assert forall|x: u16|
                        emitted(out@, start.len() as int, compose(key, x)) <==> (in_prefix(arr@, p + 1, x)
                            && bitmap_has(words@, x)) by {
                        lemma_in_prefix_step(arr@, p as int, x);
                        if !present {
                            assert(out@ == before);
                        }
                    }
                }
                p += 1;
            }
            proof {
                assert forall|lo: u16| in_prefix(arr@, p as int, lo) <==> arr@.contains(lo) by {
                    lemma_in_prefix_all(arr@, lo);
                }
            }
        },
        Container::Array(xb) => {
            let mut p: usize = 0;
            let mut q: usize = 0;
            while p < arr.len() && q < xb.len()
                invariant
                    p <= arr@.len(),
                    q <= xb@.len(),
                    ascending16(arr@),
                    ascending16(xb@),
                    forall|x: int| 0 <= x < p && q < xb@.len() ==> arr@[x] < xb@[q as int],
                    forall|y: int| 0 <= y < q && p < arr@.len() ==> xb@[y] < arr@[p as int],
                    out@.len() >= start.len(),
                    out@.subrange(0, start.len() as int) == start,
                    forall|i: int, j: int| start.len() <= i < j < out@.len() ==> out@[i] < out@[j],
                    forall|i: int|
                        start.len() <= i < out@.len() ==> high(#[trigger] out@[i]) == key && (p < arr@.len()
                            ==> low(out@[i]) < arr@[p as int]),
                    forall|lo: u16|
                        #[trigger] emitted(out@, start.len() as int, compose(key, lo)) <==> (
                        in_prefix(arr@, p as int, lo) && xb@.contains(lo)),
                decreases arr.len() - p + xb.len() - q,
            {
                let x = arr[p];
                let y = xb[q];
                let ghost before = out@;
                if x < y {
                    proof {
                        assert(!xb@.contains(x)) by {
                            if xb@.contains(x) {
                                let k = choose|k: int| 0 <= k < xb@.len() && xb@[k] == x;
                                if k > q {
                                    assert(xb@[q as int] < xb@[k]);
                                }
                            }
                        }
                        assert forall|lo: u16|
                            emitted(out@, start.len() as int, compose(key, lo)) <==> (in_prefix(arr@, p + 1, lo)
                                && xb@.contains(lo)) by {
                            lemma_in_prefix_step(arr@, p as int, lo);
                        }
                        assert forall|i: int|
                            start.len() <= i < out@.len() implies high(#[trigger] out@[i]) == key && (p + 1 < arr@.len()
                                ==> low(out@[i]) < arr@[p + 1]) by {
                            if p + 1 < arr@.len() {
                                assert(arr@[p as int] < arr@[p + 1]);
                            }
                        }
                        assert forall|k: int| 0 <= k < q && p + 1 < arr@.len() implies xb@[k] < arr@[p + 1] by {
                            assert(arr@[p as int] < arr@[p + 1]);
                        }
                    }
                    p += 1;
                } else if y < x {
                    proof {
                        assert forall|k: int| 0 <= k < p && q + 1 < xb@.len() implies arr@[k] < xb@[q + 1] by {
                            assert(xb@[q as int] < xb@[q + 1]);
                        }
                    }
                    q += 1;
                } else {
                    let d = key as u32 * 65536 + x as u32;
                    proof {
                        lemma_compose(key, x);
                    }
                    out.push(d);
                    proof {
                        lemma_append_one(start, before, key, x);
                        assert forall|i: int, j: int| start.len() <= i < j < out@.len() implies out@[i] < out@[j] by {
                            if j == out@.len() - 1 {
                                lemma_order(before[i], d);
                            } else {
                                assert(out@[i] == before[i] && out@[j] == before[j]);
                            }
                        }
                        assert(xb@.contains(x)) by {
                            assert(xb@[q as int] == x);
                        }
                        assert forall|lo: u16|
                            emitted(out@, start.len() as int, compose(key, lo)) <==> (in_prefix(arr@, p + 1, lo)
                                && xb@.contains(lo)) by {
                            lemma_in_prefix_step(arr@, p as int, lo);
                        }
                        assert forall|i: int|
                            start.len() <= i < out@.len() implies high(#[trigger] out@[i]) == key && (p + 1 < arr@.len()
                                ==> low(out@[i]) < arr@[p + 1]) by {
                            if p + 1 < arr@.len() {
                                assert(arr@[p as int] < arr@[p + 1]);
                            }
                            if i < before.len() {
                                assert(out@[i] == before[i]);
                            }
                        }
                        assert forall|k: int| 0 <= k < p + 1 && q + 1 < xb@.len() implies arr@[k] < xb@[q + 1] by {
                            assert(xb@[q as int] < xb@[q + 1]);
                        }
                        assert forall|k: int| 0 <= k < q + 1 && p + 1 < arr@.len() implies xb@[k] < arr@[p + 1] by {
                            assert(arr@[p as int] < arr@[p + 1]);
                        }
                    }
                    p += 1;
                    q += 1;
                }
            }
            proof {
                assert forall|lo: u16| (in_prefix(arr@, p as int, lo) && xb@.contains(lo)) <==> (
                arr@.contains(lo) && xb@.contains(lo)) by {
                    reveal(in_prefix);
                    if in_prefix(arr@, p as int, lo) {
                        let x = choose|x: int| 0 <= x < p && arr@[x] == lo;
                        assert(arr@.contains(lo));
                    }
                    if arr@.contains(lo) && xb@.contains(lo) {
                        let x = choose|x: int| 0 <= x < arr@.len() && arr@[x] == lo;
                        if x >= p {
                            let k = choose|k: int| 0 <= k < xb@.len() && xb@[k] == lo;
                            assert(q == xb@.len());
                            if x > p {
                                assert(arr@[p as int] < arr@[x]);
                            }
                            assert(xb@[k] < arr@[p as int]);
                        }
                    }
                }
            }
        },
    }
}

/// Appends `compose(key, lo)` for every `lo` both containers hold, ascending.
fn intersect_containers(key: u16, a: &Container, b: &Container, out: &mut Vec<u32>)
    requires
        container_wf(*a),
        container_wf(*b),
    ensures
        appended_chunk(old(out)@, final(out)@, key, *a, *b),
{
    let ghost start = out@;
    assert(out@.subrange(0, start.len() as int) =~= start);
    proof {
        assert forall|lo: u16| !#[trigger] emitted(out@, start.len() as int, compose(key, lo)) by {
            reveal(emitted);
        }
    }
    match (a, b) {
        (Container::Bitmap(wa), Container::Bitmap(wb)) => {
            let mut w: usize = 0;
            while w < WORDS_PER_CHUNK
                invariant
                    w <= WORDS_PER_CHUNK,
                    wa@.len() == WORDS_PER_CHUNK,
                    wb@.len() == WORDS_PER_CHUNK,
                    *a == Container::Bitmap(*wa),
                    *b == Container::Bitmap(*wb),
                    out@.len() >= start.len(),
                    out@.subrange(0, start.len() as int) == start,
                    forall|i: int, j: int| start.len() <= i < j < out@.len() ==> out@[i] < out@[j],
                    forall|i: int| start.len() <= i < out@.len() ==> high(#[trigger] out@[i]) == key && low(out@[i]) < w * 64,
                    forall|lo: u16|
                        #[trigger] emitted(out@, start.len() as int, compose(key, lo)) <==> (
                        lo < w * 64 && bitmap_has(wa@, lo) && bitmap_has(wb@, lo)),
                decreases WORDS_PER_CHUNK - w,
            {
                let and = wa[w] & wb[w];
                let mut bit: u64 = 0;
                while bit < 64
                    invariant
                        w < WORDS_PER_CHUNK,
                        bit <= 64,
                        wa@.len() == WORDS_PER_CHUNK,
                        wb@.len() == WORDS_PER_CHUNK,
                        and == wa@[w as int] & wb@[w as int],
                        out@.len() >= start.len(),
                        out@.subrange(0, start.len() as int) == start,
                        forall|i: int, j: int| start.len() <= i < j < out@.len() ==> out@[i] < out@[j],
                        forall|i: int| start.len() <= i < out@.len() ==> high(#[trigger] out@[i]) == key && low(out@[i]) < w * 64 + bit,
                        forall|lo: u16|
                            #[trigger] emitted(out@, start.len() as int, compose(key, lo)) <==> (
                            lo < w * 64 + bit && bitmap_has(wa@, lo) && bitmap_has(wb@, lo)),
                    decreases 64 - bit,
                {
                    let lo = (w as u64 * 64 + bit) as u16;
                    proof {
                        assert(lo / 64 == w && lo % 64 == bit);
                        lemma_and_bit(wa@[w as int], wb@[w as int], bit);
                    }
                    if (and >> bit) & 1 == 1 {
                        let ghost mid = out@;
                        let d = key as u32 * 65536 + lo as u32;
                        proof {
                            lemma_compose(key, lo);
                        }
                        out.push(d);
                        proof {
                            lemma_append_one(start, mid, key, lo);
                            assert forall|i: int, j: int| start.len() <= i < j < out@.len() implies out@[i] < out@[j] by {
                                if j == out@.len() - 1 {
                                    assert(high(mid[i]) == key && low(mid[i]) < lo);
                                    lemma_order(mid[i], d);
                                } else {
                                    assert(out@[i] == mid[i] && out@[j] == mid[j]);
                                }
                            }
                            assert forall|i: int| start.len() <= i < out@.len() implies high(#[trigger] out@[i]) == key && low(out@[i]) < w * 64 + bit + 1 by {
                                if i < mid.len() {
                                    assert(out@[i] == mid[i]);
                                }
                            }
                        }
                    } else {
                        proof {
                            assert forall|i: int| start.len() <= i < out@.len() implies high(#[trigger] out@[i]) == key && low(out@[i]) < w * 64 + bit + 1 by {
                            }
                        }
                    }
                    proof {
                        assert forall|x: u16|
                            emitted(out@, start.len() as int, compose(key, x)) <==> (
                            x < w * 64 + bit + 1 && bitmap_has(wa@, x) && bitmap_has(wb@, x)) by {
                            if x == lo {
                                assert(bitmap_has(wa@, x) == bit_set(wa@[w as int], bit));
                                assert(bitmap_has(wb@, x) == bit_set(wb@[w as int], bit));
                            }
                        }
                    }
                    bit += 1;
                }
                w += 1;
            }
            proof {
                assert forall|lo: u16| (container_has(*a, lo) && container_has(*b, lo)) ==> lo < w * 64 by {
                }
            }
        },
        (Container::Array(arr), _) => {
            intersect_array(key, arr, a, b, out);
        },
        (Container::Bitmap(_), Container::Array(arr)) => {
            intersect_array(key, arr, b, a, out);
        },
    }
}

} // verus!

verus! {

/// A set of doc ids split into chunks by their high 16 bits.
pub struct RoaringDocSet {
    chunks: Vec<(u16, Container)>,
    len: usize,
    ids: Ghost<Seq<u32>>,
}

impl View for RoaringDocSet {
    type V = Seq<u32>;

    /// The doc ids, ascending.
    closed spec fn view(&self) -> Seq<u32> {
        self.ids@
    }
}

spec fn chunk_has(chunks: Seq<(u16, Container)>, d: u32) -> bool {
    exists|c: int| 0 <= c < chunks.len() && (#[trigger] chunks[c]).0 == high(d) && container_has(chunks[c].1, low(d))
}

impl RoaringDocSet {
    #[verifier::type_invariant]
    spec fn inv(self) -> bool {
        &&& ascending(self.ids@)
        &&& self.ids@.len() == self.len
        &&& forall|c: int, e: int| 0 <= c < e < self.chunks@.len() ==> self.chunks@[c].0 < self.chunks@[e].0
        &&& forall|c: int| 0 <= c < self.chunks@.len() ==> container_wf(#[trigger] self.chunks@[c].1)
        &&& forall|d: u32| self.ids@.contains(d) <==> chunk_has(self.chunks@, d)
    }

    /// Builds the set of the strictly ascending `doc_ids`.
    pub fn from_sorted(doc_ids: &[u32]) -> (r: Self)
        requires
            ascending(doc_ids@),
        ensures
            r@ == doc_ids@,
    {
        let mut chunks: Vec<(u16, Container)> = Vec::new();
        let mut i: usize = 0;
        while i < doc_ids.len()
            invariant
                ascending(doc_ids@),
                i <= doc_ids@.len(),
                forall|c: int, e: int| 0 <= c < e < chunks@.len() ==> chunks@[c].0 < chunks@[e].0,
                forall|c: int| 0 <= c < chunks@.len() ==> container_wf(#[trigger] chunks@[c].1),
                i < doc_ids@.len() && chunks@.len() > 0 ==> chunks@.last().0 < high(doc_ids@[i as int]),
                forall|d: u32| (exists|k: int| 0 <= k < i && doc_ids@[k] == d) <==> chunk_has(chunks@, d),
            decreases doc_ids.len() - i,
        {
            let key = (doc_ids[i] / 65536) as u16;
            let start = i;
            while i < doc_ids.len() && (doc_ids[i] / 65536) as u16 == key
                invariant
                    start < doc_ids@.len(),
                    start <= i <= doc_ids@.len(),
                    key == high(doc_ids@[start as int]),
                    forall|k: int| start <= k < i ==> high(#[trigger] doc_ids@[k]) == key,
                decreases doc_ids.len() - i,
            {
                i += 1;
            }
            proof {
                if i < doc_ids@.len() {
                    lemma_order(doc_ids@[i - 1], doc_ids@[i as int]);
                    assert(high(doc_ids@[i - 1]) == key);
                }
            }
            let container = if i - start > DENSE_THRESHOLD {
                Container::Bitmap(bitmap_of(doc_ids, start, i))
            } else {
                let a = array_of(doc_ids, start, i);
                proof {
                    assert forall|x: int, y: int| 0 <= x < y < a@.len() implies a@[x] < a@[y] by {
                        lemma_order(doc_ids@[start + x], doc_ids@[start + y]);
                        assert(high(doc_ids@[start + x]) == key);
                        assert(high(doc_ids@[start + y]) == key);
                    }
                    assert forall|lo: u16| a@.contains(lo) <==> exists|m: int| start <= m < i && low(#[trigger] doc_ids@[m]) == lo by {
                        if a@.contains(lo) {
                            let x = choose|x: int| 0 <= x < a@.len() && a@[x] == lo;
                            assert(low(doc_ids@[start + x]) == lo);
                        }
                        if exists|m: int| start <= m < i && low(#[trigger] doc_ids@[m]) == lo {
                            let m = choose|m: int| start <= m < i && low(#[trigger] doc_ids@[m]) == lo;
                            assert(a@[m - start] == low(doc_ids@[start + (m - start)]));
                            assert(a@[m - start] == lo);
                        }
                    }
                }
                Container::Array(a)
            };
            proof {
                assert forall|lo: u16| container_has(container, lo) <==> exists|m: int| start <= m < i && low(#[trigger] doc_ids@[m]) == lo by {
                }
            }
            let ghost old_chunks = chunks@;
            chunks.push((key, container));
            proof {
                assert forall|c: int, e: int| 0 <= c < e < chunks@.len() implies chunks@[c].0 < chunks@[e].0 by {
                    if e == chunks@.len() - 1 && c < e {
                        assert(old_chunks.len() > 0);
                        if c < old_chunks.len() - 1 {
                            assert(old_chunks[c].0 < old_chunks[old_chunks.len() - 1].0);
                        }
                    } else {
                        assert(chunks@[c] == old_chunks[c]);
                        assert(chunks@[e] == old_chunks[e]);
                    }
                }
                assert forall|c: int| 0 <= c < chunks@.len() implies container_wf(#[trigger] chunks@[c].1) by {
                    if c < old_chunks.len() {
                        assert(chunks@[c] == old_chunks[c]);
                    }
                }
                assert forall|d: u32| (exists|k: int| 0 <= k < i && doc_ids@[k] == d) <==> chunk_has(chunks@, d) by {
                    if exists|k: int| 0 <= k < i && doc_ids@[k] == d {
                        let k = choose|k: int| 0 <= k < i && doc_ids@[k] == d;
                        if k < start {
                            assert(exists|k2: int| 0 <= k2 < start && doc_ids@[k2] == d);
                            assert(chunk_has(old_chunks, d));
                            let c = choose|c: int| 0 <= c < old_chunks.len() && (#[trigger] old_chunks[c]).0 == high(d) && container_has(old_chunks[c].1, low(d));
                            assert(chunks@[c] == old_chunks[c]);
                        } else {
                            assert(high(doc_ids@[k]) == key);
                            assert(container_has(container, low(d)));
                            assert(chunks@[old_chunks.len() as int] == (key, container));
                        }
                    }
                    if chunk_has(chunks@, d) {
                        let c = choose|c: int| 0 <= c < chunks@.len() && (#[trigger] chunks@[c]).0 == high(d) && container_has(chunks@[c].1, low(d));
                        if c < old_chunks.len() {
                            assert(chunks@[c] == old_chunks[c]);
                            assert(chunk_has(old_chunks, d));
                            let k = choose|k: int| 0 <= k < start && doc_ids@[k] == d;
                            assert(0 <= k < i);
                        } else {
                            let m = choose|m: int| start <= m < i && low(#[trigger] doc_ids@[m]) == low(d);
                            assert(high(doc_ids@[m]) == key);
                            lemma_split(doc_ids@[m]);
                            lemma_split(d);
                            assert(doc_ids@[m] == d);
                        }
                    }
                }
            }
        }
        proof {
            assert forall|d: u32| doc_ids@.contains(d) <==> chunk_has(chunks@, d) by {
                if doc_ids@.contains(d) {
                    let k = choose|k: int| 0 <= k < doc_ids@.len() && doc_ids@[k] == d;
                    assert(exists|k2: int| 0 <= k2 < i && doc_ids@[k2] == d);
                }
            }
        }
        RoaringDocSet { chunks, len: doc_ids.len(), ids: Ghost(doc_ids@) }
    }

    /// The doc ids of both sets, ascending.
    pub fn intersect_for_each(&self, other: &RoaringDocSet) -> (r: Vec<u32>)
        ensures
            ascending(r@),
            forall|d: u32| r@.contains(d) <==> (self@.contains(d) && other@.contains(d)),
    {
        proof {
            use_type_invariant(self);
            use_type_invariant(other);
        }
        let ca = &self.chunks;
        let cb = &other.chunks;
        let mut out: Vec<u32> = Vec::new();
        let mut i: usize = 0;
        let mut j: usize = 0;
        while i < ca.len() && j < cb.len()
            invariant
                *ca == self.chunks,
                *cb == other.chunks,
                i <= ca@.len(),
                j <= cb@.len(),
                forall|c: int, e: int| 0 <= c < e < ca@.len() ==> ca@[c].0 < ca@[e].0,
                forall|c: int, e: int| 0 <= c < e < cb@.len() ==> cb@[c].0 < cb@[e].0,
                forall|c: int| 0 <= c < ca@.len() ==> container_wf(#[trigger] ca@[c].1),
                forall|c: int| 0 <= c < cb@.len() ==> container_wf(#[trigger] cb@[c].1),
                forall|c: int| 0 <= c < i && j < cb@.len() ==> ca@[c].0 < cb@[j as int].0,
                forall|e: int| 0 <= e < j && i < ca@.len() ==> cb@[e].0 < ca@[i as int].0,
                ascending(out@),
                forall|k: int|
                    0 <= k < out@.len() ==> (i < ca@.len() ==> high(#[trigger] out@[k]) < ca@[i as int].0) && (j
                        < cb@.len() ==> high(out@[k]) < cb@[j as int].0),
                forall|d: u32|
                    out@.contains(d) <==> (chunk_has(ca@, d) && chunk_has(cb@, d) && (exists|c: int|
                        0 <= c < i && #[trigger] ca@[c].0 == high(d))),
            decreases ca.len() - i + cb.len() - j,
        {
            let ka = ca[i].0;
            let kb = cb[j].0;
            if ka < kb {
                proof {
                    assert forall|d: u32|
                        out@.contains(d) <==> (chunk_has(ca@, d) && chunk_has(cb@, d) && (exists|c: int|
                            0 <= c < i + 1 && #[trigger] ca@[c].0 == high(d))) by {
                        if chunk_has(ca@, d) && chunk_has(cb@, d) && high(d) == ka {
                            let e = choose|e: int| 0 <= e < cb@.len() && (#[trigger] cb@[e]).0 == high(d) && container_has(cb@[e].1, low(d));
                            if e >= j {
                                if e > j {
                                    assert(cb@[j as int].0 < cb@[e].0);
                                }
                            }
                        }
                        if exists|c: int| 0 <= c < i + 1 && #[trigger] ca@[c].0 == high(d) {
                            let c = choose|c: int| 0 <= c < i + 1 && #[trigger] ca@[c].0 == high(d);
                            if c < i {
                                assert(exists|c2: int| 0 <= c2 < i && #[trigger] ca@[c2].0 == high(d));
                            }
                        }
                        if exists|c: int| 0 <= c < i && #[trigger] ca@[c].0 == high(d) {
                            let c = choose|c: int| 0 <= c < i && #[trigger] ca@[c].0 == high(d);
                            assert(0 <= c < i + 1 && ca@[c].0 == high(d));
                        }
                    }
                    assert forall|k: int|
                        0 <= k < out@.len() implies (i + 1 < ca@.len() ==> high(#[trigger] out@[k]) < ca@[i + 1].0) && (j
                            < cb@.len() ==> high(out@[k]) < cb@[j as int].0) by {
                        if i + 1 < ca@.len() {
                            assert(ca@[i as int].0 < ca@[i + 1].0);
                        }
                    }
                    assert forall|e: int| 0 <= e < j && i + 1 < ca@.len() implies cb@[e].0 < ca@[i + 1].0 by {
                        assert(ca@[i as int].0 < ca@[i + 1].0);
                    }
                }
                i += 1;
            } else if kb < ka {
                proof {
                    assert forall|k: int|
                        0 <= k < out@.len() implies (i < ca@.len() ==> high(#[trigger] out@[k]) < ca@[i as int].0) && (j
                            + 1 < cb@.len() ==> high(out@[k]) < cb@[j + 1].0) by {
                        if j + 1 < cb@.len() {
                            assert(cb@[j as int].0 < cb@[j + 1].0);
                        }
                    }
                    assert forall|c: int| 0 <= c < i && j + 1 < cb@.len() implies ca@[c].0 < cb@[j + 1].0 by {
                        assert(cb@[j as int].0 < cb@[j + 1].0);
                    }
                    assert forall|d: u32|
                        out@.contains(d) <==> (chunk_has(ca@, d) && chunk_has(cb@, d) && (exists|c: int|
                            0 <= c < i && #[trigger] ca@[c].0 == high(d))) by {
                    }
                }
                j += 1;
            } else {
                let ghost before = out@;
                intersect_containers(ka, &ca[i].1, &cb[j].1, &mut out);
                proof {
                    reveal(emitted);
                    let n = before.len() as int;
                    assert forall|x: int, y: int| 0 <= x < y < out@.len() implies out@[x] < out@[y] by {
                        if y >= n && x < n {
                            assert(out@[x] == before[x]);
                            assert(high(before[x]) < ka);
                            assert(high(out@[y]) == ka);
                            lemma_order(out@[x], out@[y]);
                        } else if y < n {
                            assert(out@[x] == before[x] && out@[y] == before[y]);
                        }
                    }
                    assert forall|k: int|
                        0 <= k < out@.len() implies (i + 1 < ca@.len() ==> high(#[trigger] out@[k]) < ca@[i + 1].0) && (j
                            + 1 < cb@.len() ==> high(out@[k]) < cb@[j + 1].0) by {
                        if i + 1 < ca@.len() {
                            assert(ca@[i as int].0 < ca@[i + 1].0);
                        }
                        if j + 1 < cb@.len() {
                            assert(cb@[j as int].0 < cb@[j + 1].0);
                        }
                        if k < n {
                            assert(out@[k] == before[k]);
                        }
                    }
                    assert forall|c: int| 0 <= c < i + 1 && j + 1 < cb@.len() implies ca@[c].0 < cb@[j + 1].0 by {
                        assert(cb@[j as int].0 < cb@[j + 1].0);
                    }
                    assert forall|e: int| 0 <= e < j + 1 && i + 1 < ca@.len() implies cb@[e].0 < ca@[i + 1].0 by {
                        assert(ca@[i as int].0 < ca@[i + 1].0);
                    }
                    assert forall|d: u32|
                        out@.contains(d) <==> (chunk_has(ca@, d) && chunk_has(cb@, d) && (exists|c: int|
                            0 <= c < i + 1 && #[trigger] ca@[c].0 == high(d))) by {
                        lemma_split(d);
                        if out@.contains(d) {
                            let k = choose|k: int| 0 <= k < out@.len() && out@[k] == d;
                            if k < n {
                                assert(before[k] == d);
                                assert(before.contains(d));
                                let c = choose|c: int| 0 <= c < i && #[trigger] ca@[c].0 == high(d);
                                assert(0 <= c < i + 1 && ca@[c].0 == high(d));
                            } else {
                                assert(high(d) == ka);
                                assert(emitted(out@, n, compose(ka, low(d))));
                                assert(container_has(ca@[i as int].1, low(d)) && container_has(cb@[j as int].1, low(d)));
                                assert(ca@[i as int].0 == high(d));
                                assert(cb@[j as int].0 == high(d));
                            }
                        }
                        if chunk_has(ca@, d) && chunk_has(cb@, d) && (exists|c: int| 0 <= c < i + 1 && #[trigger] ca@[c].0 == high(d)) {
                            let c = choose|c: int| 0 <= c < i + 1 && #[trigger] ca@[c].0 == high(d);
                            if c < i {
                                assert(exists|c2: int| 0 <= c2 < i && #[trigger] ca@[c2].0 == high(d));
                                assert(before.contains(d));
                                let k = choose|k: int| 0 <= k < before.len() && before[k] == d;
                                assert(out@[k] == d);
                            } else {
                                let ci = choose|c2: int| 0 <= c2 < ca@.len() && (#[trigger] ca@[c2]).0 == high(d) && container_has(ca@[c2].1, low(d));
                                if ci != i {
                                    if ci < i {
                                        assert(ca@[ci].0 < ca@[i as int].0);
                                    } else {
                                        assert(ca@[i as int].0 < ca@[ci].0);
                                    }
                                }
                                let ej = choose|e2: int| 0 <= e2 < cb@.len() && (#[trigger] cb@[e2]).0 == high(d) && container_has(cb@[e2].1, low(d));
                                if ej != j {
                                    if ej < j {
                                        assert(cb@[ej].0 < cb@[j as int].0);
                                    } else {
                                        assert(cb@[j as int].0 < cb@[ej].0);
                                    }
                                }
                                assert(emitted(out@, n, compose(ka, low(d))));
                                let k = choose|k: int| n <= k < out@.len() && out@[k] == compose(ka, low(d));
                                assert(out@[k] == d);
                            }
                        }
                    }
                }
                i += 1;
                j += 1;
            }
        }
        proof {
            assert forall|d: u32| out@.contains(d) <==> (self@.contains(d) && other@.contains(d)) by {
                if chunk_has(ca@, d) && chunk_has(cb@, d) {
                    let c = choose|c: int| 0 <= c < ca@.len() && (#[trigger] ca@[c]).0 == high(d) && container_has(ca@[c].1, low(d));
                    let e = choose|e: int| 0 <= e < cb@.len() && (#[trigger] cb@[e]).0 == high(d) && container_has(cb@[e].1, low(d));
                    if c >= i {
                        assert(j == cb@.len());
                        assert(cb@[e].0 < ca@[i as int].0);
                        if c > i {
                            assert(ca@[i as int].0 < ca@[c].0);
                        }
                    }
                    assert(0 <= c < i && ca@[c].0 == high(d));
                }
            }
        }
        out
    }

    pub fn len(&self) -> (r: usize)
        ensures
            r == self@.len(),
    {
        proof {
            use_type_invariant(self);
        }
        self.len
    }

    pub fn is_empty(&self) -> (r: bool)
        ensures
            r == (self@.len() == 0),
    {
        proof {
            use_type_invariant(self);
        }
        self.len == 0
    }
}

} // verus!
