//! Per-field document lengths for BM25 norms, each stored as the one-byte
//! Lucene `SmallFloat` quantization of the length.

use vstd::prelude::*;

use vstd::std_specs::bits::u64_leading_zeros;

verus! {

broadcast use vstd::std_specs::bits::axiom_u64_leading_zeros;

/// Lengths below this many tokens are stored exactly.
pub const NUM_FREE_VALUES: u32 = 24;

/// Lucene `longToInt4`: four significant bits of `v` (the leading one
/// implied) with the exponent above them.
pub open spec fn long_to_int4_spec(v: u64) -> u32 {
    let num_bits = 64 - u64_leading_zeros(v);
    if num_bits < 4 {
        v as u32
    } else {
        let shift = (num_bits - 4) as u64;
        ((((v >> shift) as u32) & 7u32) | (((shift + 1) as u32) << 3u32)) as u32
    }
}

/// Lucene `int4ToLong`, the inverse of [`long_to_int4_spec`] up to the
/// dropped low bits.
pub open spec fn int4_to_long_spec(e: u32) -> u64 {
    let bits = (e & 7u32) as u64;
    let exp = e >> 3u32;
    if exp == 0 {
        bits
    } else {
        ((bits | 8u64) << ((exp - 1) as u64)) as u64
    }
}

/// The byte a length is stored as: exact below [`NUM_FREE_VALUES`], then
/// quantized (the sum wraps to a byte, as the `as u8` of Lucene's encoder
/// does, for lengths past `i32::MAX`).
pub open spec fn byte_of_len(v: u32) -> u8 {
    if v < 24 {
        v as u8
    } else {
        (24 + long_to_int4_spec((v - 24) as u64)) as u8
    }
}

/// The length a stored byte stands for.
pub open spec fn len_of_byte(b: u8) -> u32 {
    if b < 24 {
        b as u32
    } else {
        let d = 24 + int4_to_long_spec((b - 24) as u32);
        if d > u32::MAX {
            u32::MAX
        } else {
            d as u32
        }
    }
}

fn long_to_int4(value: u64) -> (r: u32)
    ensures
        r == long_to_int4_spec(value),
        r <= 495,
{
    let num_bits = 64 - value.leading_zeros();
    if num_bits < 4 {
        assert(value < 8) by {
            reveal(u64_leading_zeros);
            if value >= 8 {
                assert(value / 8 >= 1);
                assert(u64_leading_zeros((value / 8) as u64) <= 63);
                assert(u64_leading_zeros((value / 4) as u64) == u64_leading_zeros((value / 4 / 2) as u64) - 1);
                assert(value / 4 / 2 == value / 8);
                assert(u64_leading_zeros((value / 2) as u64) == u64_leading_zeros((value / 2 / 2) as u64) - 1);
                assert(value / 2 / 2 == value / 4);
                assert(u64_leading_zeros(value) == u64_leading_zeros((value / 2) as u64) - 1);
            }
        }
        return value as u32;
    }
    let shift = (num_bits - 4) as u64;
    let mantissa = ((value >> shift) as u32) & 0x07;
    let exponent = (shift + 1) as u32;
    assert(mantissa < 8) by (bit_vector)
        requires
            mantissa == ((value >> shift) as u32) & 0x07,
    ;
    assert(exponent <= 61);
    let r = mantissa | (exponent << 3);
    assert(r <= 495) by (bit_vector)
        requires
            mantissa < 8,
            exponent <= 61,
            r == mantissa | (exponent << 3),
    ;
    r
}

fn int4_to_long(encoded: u32) -> (r: u64)
    requires
        encoded <= 255,
    ensures
        r == int4_to_long_spec(encoded),
        r < 0x4_0000_0000,
{
    let bits = (encoded & 0x07) as u64;
    let exp = encoded >> 3;
    if exp == 0 {
        assert(bits < 8) by (bit_vector)
            requires
                bits == (encoded & 7u32) as u64,
        ;
        bits
    } else {
        assert(exp <= 31) by (bit_vector)
            requires
                exp == encoded >> 3u32,
                encoded <= 255,
        ;
        let r = (bits | 0x08) << ((exp - 1) as u64);
        assert(r < 0x4_0000_0000) by (bit_vector)
            requires
                bits == (encoded & 7u32) as u64,
                exp == encoded >> 3u32,
                exp >= 1,
                encoded <= 255,
                r == (bits | 8u64) << ((exp - 1) as u64),
        ;
        r
    }
}

/// The byte a document length is stored as.
pub fn int_to_byte4(value: u32) -> (r: u8)
    ensures
        r == byte_of_len(value),
{
    if value < NUM_FREE_VALUES {
        return value as u8;
    }
    let offset = (value - NUM_FREE_VALUES) as u64;
    let encoded = long_to_int4(offset);
    (NUM_FREE_VALUES + encoded) as u8
}

/// The document length a stored byte stands for.
pub fn byte4_to_int(byte: u8) -> (r: u32)
    ensures
        r == len_of_byte(byte),
{
    let i = byte as u32;
    if i < NUM_FREE_VALUES {
        return i;
    }
    let decoded = NUM_FREE_VALUES as u64 + int4_to_long(i - NUM_FREE_VALUES);
    if decoded > u32::MAX as u64 {
        u32::MAX
    } else {
        decoded as u32
    }
}

/// Lengths below [`NUM_FREE_VALUES`] come back exactly from their byte,
/// and a positive length is never stored as the absent byte `0`.
pub proof fn law_small_lengths_are_exact(v: u32)
    ensures
        v < 24 ==> len_of_byte(byte_of_len(v)) == v,
        0 < v < 24 ==> byte_of_len(v) != 0,
{
}

/// What quantizing `x` keeps: with `s` the number of low bits dropped, the
/// code decodes to `x` with those bits cleared, which loses less than an
/// eighth of `x`, and the next code decodes above `x`.
proof fn lemma_int4_code(x: u64)
    requires
        8 <= x < 0x8000_0000,
    ensures
        long_to_int4_spec(x) <= 231,
        int4_to_long_spec(long_to_int4_spec(x)) <= x,
        8 * (x - int4_to_long_spec(long_to_int4_spec(x))) < x,
        int4_to_long_spec((long_to_int4_spec(x) + 1) as u32) > x,
{
    let l = u64_leading_zeros(x) as u64;
    assert(l < 64);
    assert(x >> ((64 - l) as u64) == 0u64);
    assert((x >> ((63 - l) as u64)) & 1u64 != 0u64);
    assert(33 <= l <= 60) by (bit_vector)
        requires
            8 <= x < 0x8000_0000,
            l < 64,
            x >> ((64 - l) as u64) == 0u64,
            (x >> ((63 - l) as u64)) & 1u64 != 0u64,
    ;
    let s = (60 - l) as u64;
    let code = long_to_int4_spec(x);
    assert(code == ((((x >> s) as u32) & 7u32) | (((s + 1) as u32) << 3u32)) as u32);
    assert(x >> (s + 4) == 0u64 && (x >> (s + 3)) & 1u64 != 0u64);
    assert({
        &&& code <= 231
        &&& int4_to_long_spec(code) <= x
        &&& 8 * (x - int4_to_long_spec(code)) < x
        &&& int4_to_long_spec((code + 1) as u32) > x
    }) by (bit_vector)
        requires
            s <= 27,
            x >> (s + 4) == 0u64,
            (x >> (s + 3)) & 1u64 != 0u64,
            code == ((((x >> s) as u32) & 7u32) | (((s + 1) as u32) << 3u32)) as u32,
    ;
}

/// Codes up to the largest one a length below `i32::MAX` takes decode to
/// strictly increasing lengths.
proof fn lemma_int4_to_long_increasing(a: u32, b: u32)
    requires
        a < b <= 231,
    ensures
        int4_to_long_spec(a) < int4_to_long_spec(b),
{
    assert(int4_to_long_spec(a) < int4_to_long_spec(b)) by (bit_vector)
        requires
            a < b <= 231,
    ;
}

/// Different bytes stand for different lengths, and a larger byte for a
/// larger length.
pub proof fn law_decoded_lengths_increase(a: u8, b: u8)
    requires
        a < b,
    ensures
        len_of_byte(a) < len_of_byte(b),
{
    if b >= 24 {
        assert(int4_to_long_spec(0u32) == 0u64) by (bit_vector);
        if a >= 24 {
            lemma_int4_to_long_increasing((a - 24) as u32, (b - 24) as u32);
        } else if b > 24 {
            lemma_int4_to_long_increasing(0u32, (b - 24) as u32);
        }
        assert(int4_to_long_spec((b - 24) as u32) < 0x8000_0000) by (bit_vector)
            requires
                b >= 24,
        ;
    }
}

/// Below eight, quantizing keeps every bit, and the next code is the next
/// integer.
proof fn lemma_int4_code_small(x: u64)
    requires
        x < 8,
    ensures
        long_to_int4_spec(x) == x,
        int4_to_long_spec(x as u32) == x,
        int4_to_long_spec((x + 1) as u32) == x + 1,
{
    reveal(u64_leading_zeros);
    assert(u64_leading_zeros((x / 8) as u64) == 64);
    assert(u64_leading_zeros((x / 4) as u64) >= 63) by {
        assert((x / 4) / 2 == x / 8);
    }
    assert(u64_leading_zeros((x / 2) as u64) >= 62) by {
        assert((x / 2) / 2 == x / 4);
    }
    assert(u64_leading_zeros(x) >= 61);
    assert(int4_to_long_spec(x as u32) == x && int4_to_long_spec((x + 1) as u32) == x + 1)
        by (bit_vector)
        requires
            x < 8,
    ;
}

/// A length is stored as the byte of the largest representable length at
/// or below it: every length up to `i32::MAX` reads back as a length no
/// larger than itself, those below `32` exactly, the others short by at
/// most an eighth of the part above [`NUM_FREE_VALUES`], and no byte
/// stands for a length that lies above the one read back and at or below
/// the length itself.
pub proof fn law_stored_length_is_largest_representable(v: u32)
    requires
        v <= 0x7fff_ffff,
    ensures
        len_of_byte(byte_of_len(v)) <= v,
        v < 32 ==> len_of_byte(byte_of_len(v)) == v,
        v >= 24 ==> 8 * (v - len_of_byte(byte_of_len(v))) <= v - 24,
        forall|b: u8| #[trigger] len_of_byte(b) <= v ==> len_of_byte(b) <= len_of_byte(byte_of_len(v)),
{
    let c = byte_of_len(v);
    if v >= 24 {
        let x = (v - 24) as u64;
        if x < 8 {
            lemma_int4_code_small(x);
        } else {
            lemma_int4_code(x);
        }
        assert(c == 24 + long_to_int4_spec(x));
    } else {
        assert(int4_to_long_spec(0u32) == 0u64) by (bit_vector);
    }
    // The byte after `c`, where there is one, stands for a length above `v`.
    assert(c < 255 ==> len_of_byte((c + 1) as u8) > v);
    assert forall|b: u8| #[trigger] len_of_byte(b) <= v implies len_of_byte(b) <= len_of_byte(c) by {
        if b > c {
            if b > c + 1 {
                law_decoded_lengths_increase((c + 1) as u8, b);
            }
        } else if b < c {
            law_decoded_lengths_increase(b, c);
        }
    }
}

/// The length a stored byte stands for, `0` for the absent byte.
pub fn decode_doc_len_byte(byte: u8) -> (r: u64)
    ensures
        r == if byte == 0 {
            0
        } else {
            len_of_byte(byte) as u64
        },
{
    if byte == 0 {
        0
    } else {
        byte4_to_int(byte) as u64
    }
}

// ----- per-field statistics -----

/// The smallest length that a non-zero byte among the first `n` of
/// `dense` stands for, `0` when there is none.
pub open spec fn min_recorded(dense: Seq<u8>, n: nat) -> u64
    decreases n,
{
    if n == 0 {
        0
    } else {
        let m = min_recorded(dense, (n - 1) as nat);
        let b = dense[n - 1];
        if b == 0 {
            m
        } else if m == 0 || (len_of_byte(b) as u64) < m {
            len_of_byte(b) as u64
        } else {
            m
        }
    }
}

/// `m` is the smallest length a non-zero byte among the first `n` of
/// `dense` stands for, or `0` with no such byte.
pub open spec fn is_min_recorded(dense: Seq<u8>, n: nat, m: u64) -> bool {
    ||| (m == 0 && forall|j: int| 0 <= j < n ==> #[trigger] dense[j] == 0)
    ||| (m > 0 && (exists|j: int| 0 <= j < n && dense[j] != 0 && #[trigger] len_of_byte(dense[j]) as u64 == m) && forall|
        j: int,
    |
        0 <= j < n && #[trigger] dense[j] != 0 ==> m <= len_of_byte(dense[j]) as u64)
}

proof fn lemma_len_of_nonzero_byte(b: u8)
    requires
        b != 0,
    ensures
        len_of_byte(b) > 0,
{
}

proof fn lemma_min_recorded(dense: Seq<u8>, n: nat)
    requires
        n <= dense.len(),
    ensures
        is_min_recorded(dense, n, min_recorded(dense, n)),
    decreases n,
{
    if n > 0 {
        lemma_min_recorded(dense, (n - 1) as nat);
        let b = dense[n - 1];
        if b != 0 {
            lemma_len_of_nonzero_byte(b);
        }
        let m = min_recorded(dense, (n - 1) as nat);
        if m > 0 {
            let j = choose|j: int| 0 <= j < n - 1 && dense[j] != 0 && #[trigger] len_of_byte(dense[j]) as u64 == m;
            assert(len_of_byte(dense[j]) as u64 == m);
        }
        assert(len_of_byte(dense[n - 1]) == len_of_byte(b));
    }
}

proof fn lemma_min_unique(dense: Seq<u8>, n: nat, m: u64)
    requires
        n <= dense.len(),
        is_min_recorded(dense, n, m),
    ensures
        m == min_recorded(dense, n),
{
    lemma_min_recorded(dense, n);
    let k = min_recorded(dense, n);
    if m > 0 && k > 0 {
        let a = choose|j: int| 0 <= j < n && dense[j] != 0 && #[trigger] len_of_byte(dense[j]) as u64 == m;
        let c = choose|j: int| 0 <= j < n && dense[j] != 0 && #[trigger] len_of_byte(dense[j]) as u64 == k;
        assert(len_of_byte(dense[a]) as u64 == m);
        assert(len_of_byte(dense[c]) as u64 == k);
    } else if m > 0 {
        let a = choose|j: int| 0 <= j < n && dense[j] != 0 && #[trigger] len_of_byte(dense[j]) as u64 == m;
        assert(dense[a] == 0);
    } else if k > 0 {
        let c = choose|j: int| 0 <= j < n && dense[j] != 0 && #[trigger] len_of_byte(dense[j]) as u64 == k;
        assert(dense[c] == 0);
    }
}

/// `s` grown with zeros to at least `n` bytes.
pub open spec fn padded(s: Seq<u8>, n: nat) -> Seq<u8> {
    if s.len() >= n {
        s
    } else {
        s + Seq::new((n - s.len()) as nat, |i: int| 0u8)
    }
}

/// The byte recorded at `i`, `0` past the end.
pub open spec fn byte_at(s: Seq<u8>, i: int) -> u8 {
    if 0 <= i < s.len() {
        s[i]
    } else {
        0
    }
}

/// `a - b`, `0` below zero.
pub open spec fn sat_sub(a: u64, b: u64) -> u64 {
    if a >= b {
        (a - b) as u64
    } else {
        0
    }
}

/// The length statistics of one field: how many documents recorded a
/// length, the total of the raw lengths, and each document's quantized
/// length by document id (`0` for none).
#[derive(Debug, Clone, PartialEq, Eq)]
pub struct FieldLengthStats {
    pub doc_count: u64,
    pub total_terms: u64,
    doc_len_dense: Vec<u8>,
    min_doc_len: u64,
}

impl FieldLengthStats {
    /// How many documents recorded a length.
    pub closed spec fn count(&self) -> u64 {
        self.doc_count
    }

    /// The total of the raw recorded lengths.
    pub closed spec fn total(&self) -> u64 {
        self.total_terms
    }

    /// The stored byte of each document id.
    pub closed spec fn dense(&self) -> Seq<u8> {
        self.doc_len_dense@
    }

    /// The smallest recorded length, `0` for none.
    pub closed spec fn min_len(&self) -> u64 {
        self.min_doc_len
    }

    /// The smallest recorded length is the one the stored bytes give.
    pub closed spec fn wf(&self) -> bool {
        self.min_doc_len == min_recorded(self.doc_len_dense@, self.doc_len_dense@.len())
    }

    pub fn new() -> (r: FieldLengthStats)
        ensures
            r.wf(),
            r.count() == 0,
            r.total() == 0,
            r.dense().len() == 0,
            r.min_len() == 0,
    {
        FieldLengthStats { doc_count: 0, total_terms: 0, doc_len_dense: Vec::new(), min_doc_len: 0 }
    }

    /// Records that document `doc_id` has `doc_len` tokens in the field; a
    /// zero length is ignored, and without norms only the document count
    /// moves. With norms the quantized length is stored at `doc_id`,
    /// replacing (and taking back from the total) an earlier one.
    pub fn record_doc_len(&mut self, doc_id: u32, doc_len: u64, norms_enabled: bool)
        requires
            old(self).wf(),
            doc_id < usize::MAX,
            doc_len > 0 && (!norms_enabled || byte_at(old(self).dense(), doc_id as int) == 0) ==> old(self).count()
                < u64::MAX,
            doc_len > 0 && norms_enabled ==> (if byte_at(old(self).dense(), doc_id as int) == 0 {
                old(self).total() as int
            } else {
                sat_sub(old(self).total(), len_of_byte(byte_at(old(self).dense(), doc_id as int)) as u64) as int
            }) + doc_len <= u64::MAX,
        ensures
            final(self).wf(),
            doc_len == 0 ==> *final(self) == *old(self),
            doc_len > 0 && !norms_enabled ==> final(self).count() == old(self).count() + 1 && final(self).total()
                == old(self).total() && final(self).dense() == old(self).dense(),
            doc_len > 0 && norms_enabled ==> {
                let prev = byte_at(old(self).dense(), doc_id as int);
                let enc = byte_of_len(
                    if doc_len > u32::MAX {
                        u32::MAX
                    } else {
                        doc_len as u32
                    },
                );
                &&& final(self).dense() == padded(old(self).dense(), (doc_id + 1) as nat).update(doc_id as int, enc)
                &&& final(self).count() == old(self).count() + if prev == 0 {
                    1int
                } else {
                    0int
                }
                &&& final(self).total() == (if prev == 0 {
                    old(self).total()
                } else {
                    sat_sub(old(self).total(), len_of_byte(prev) as u64)
                }) + doc_len
            },
    {
        if doc_len == 0 {
            return;
        }
        if !norms_enabled {
            self.doc_count = self.doc_count + 1;
            return;
        }
        let ghost old_dense = self.doc_len_dense@;
        let idx = doc_id as usize;
        while self.doc_len_dense.len() <= idx
            invariant
                idx < usize::MAX,
                idx == doc_id,
                old_dense == old(self).doc_len_dense@,
                self.min_doc_len == old(self).min_doc_len,
                self.doc_count == old(self).doc_count,
                self.total_terms == old(self).total_terms,
                old_dense.len() <= self.doc_len_dense@.len(),
                self.doc_len_dense@.len() == old_dense.len() || self.doc_len_dense@.len() <= idx + 1,
                self.doc_len_dense@ == old_dense + Seq::new(
                    (self.doc_len_dense@.len() - old_dense.len()) as nat,
                    |i: int| 0u8,
                ),
            decreases idx + 1 - self.doc_len_dense.len(),
        {
            self.doc_len_dense.push(0);
            assert(self.doc_len_dense@ =~= old_dense + Seq::new(
                (self.doc_len_dense@.len() - old_dense.len()) as nat,
                |i: int| 0u8,
            ));
        }
        let ghost grown = self.doc_len_dense@;
        assert(grown =~= padded(old_dense, (doc_id + 1) as nat));
        proof {
            lemma_min_recorded(old_dense, old_dense.len());
            assert(is_min_recorded(grown, grown.len(), self.min_doc_len)) by {
                if self.min_doc_len > 0 {
                    let j = choose|j: int|
                        0 <= j < old_dense.len() && old_dense[j] != 0 && #[trigger] len_of_byte(old_dense[j]) as u64
                            == self.min_doc_len;
                    assert(grown[j] == old_dense[j]);
                }
                assert forall|j: int| 0 <= j < grown.len() && #[trigger] grown[j] != 0 implies j < old_dense.len() by {
                    if j >= old_dense.len() {
                        assert(grown[j] == 0);
                    }
                }
            }
            lemma_min_unique(grown, grown.len(), self.min_doc_len);
        }
        let raw: u32 = if doc_len > u32::MAX as u64 {
            u32::MAX
        } else {
            doc_len as u32
        };
        let encoded = int_to_byte4(raw);
        let previous_byte = self.doc_len_dense[idx];
        let previous_reconstructed: u64 = if previous_byte == 0 {
            0
        } else {
            byte4_to_int(previous_byte) as u64
        };
        if previous_byte != 0 {
            self.total_terms = if self.total_terms >= previous_reconstructed {
                self.total_terms - previous_reconstructed
            } else {
                0
            };
        } else {
            self.doc_count = self.doc_count + 1;
        }
        self.doc_len_dense.set(idx, encoded);
        self.total_terms = self.total_terms + doc_len;
        let reconstructed = byte4_to_int(encoded) as u64;
        let ghost updated = self.doc_len_dense@;
        proof {
            if encoded != 0 {
                lemma_len_of_nonzero_byte(encoded);
            }
            if previous_byte != 0 {
                lemma_len_of_nonzero_byte(previous_byte);
            }
        }
        if self.min_doc_len == 0 || reconstructed < self.min_doc_len {
            if encoded != 0 {
                proof {
                    assert(is_min_recorded(updated, updated.len(), reconstructed)) by {
                        assert(updated[idx as int] == encoded);
                        assert forall|j: int| 0 <= j < updated.len() && #[trigger] updated[j] != 0 implies reconstructed
                            <= len_of_byte(updated[j]) as u64 by {
                            if j != idx {
                                assert(updated[j] == grown[j]);
                            }
                        }
                    }
                    lemma_min_unique(updated, updated.len(), reconstructed);
                }
                self.min_doc_len = reconstructed;
            } else {
                self.min_doc_len = self.recompute_min();
            }
        } else if previous_reconstructed == self.min_doc_len && reconstructed > previous_reconstructed {
            self.min_doc_len = self.recompute_min();
        } else {
            if encoded != 0 {
                proof {
                    assert(is_min_recorded(updated, updated.len(), self.min_doc_len)) by {
                        let j0 = choose|j: int|
                            0 <= j < grown.len() && grown[j] != 0 && #[trigger] len_of_byte(grown[j]) as u64
                                == self.min_doc_len;
                        assert(len_of_byte(grown[j0]) as u64 == self.min_doc_len);
                        if j0 == idx {
                            assert(updated[idx as int] == encoded);
                            assert(len_of_byte(updated[idx as int]) as u64 == reconstructed);
                        } else {
                            assert(updated[j0] == grown[j0]);
                        }
                        assert forall|j: int| 0 <= j < updated.len() && #[trigger] updated[j] != 0 implies self.min_doc_len
                            <= len_of_byte(updated[j]) as u64 by {
                            if j != idx {
                                assert(updated[j] == grown[j]);
                            }
                        }
                    }
                    lemma_min_unique(updated, updated.len(), self.min_doc_len);
                }
            } else {
                self.min_doc_len = self.recompute_min();
            }
        }
    }

    /// The smallest length the stored bytes give.
    fn recompute_min(&self) -> (r: u64)
        ensures
            r == min_recorded(self.doc_len_dense@, self.doc_len_dense@.len()),
    {
        let mut m: u64 = 0;
        let mut i: usize = 0;
        while i < self.doc_len_dense.len()
            invariant
                i <= self.doc_len_dense@.len(),
                m == min_recorded(self.doc_len_dense@, i as nat),
            decreases self.doc_len_dense.len() - i,
        {
            let b = self.doc_len_dense[i];
            if b != 0 {
                let r = byte4_to_int(b) as u64;
                if m == 0 || r < m {
                    m = r;
                }
            }
            i += 1;
        }
        m
    }

    /// The smallest recorded length, none when no length was recorded.
    pub fn min_doc_len(&self) -> (r: Option<u64>)
        ensures
            r == if self.min_len() > 0 {
                Some(self.min_len())
            } else {
                None::<u64>
            },
    {
        if self.min_doc_len > 0 {
            Some(self.min_doc_len)
        } else {
            None
        }
    }

    /// The quantized length of document `doc_id`, none when it recorded no
    /// length.
    pub fn doc_len(&self, doc_id: u32) -> (r: Option<u64>)
        ensures
            r == if byte_at(self.dense(), doc_id as int) != 0 {
                Some(len_of_byte(byte_at(self.dense(), doc_id as int)) as u64)
            } else {
                None::<u64>
            },
    {
        let idx = doc_id as usize;
        if idx < self.doc_len_dense.len() && self.doc_len_dense[idx] != 0 {
            Some(byte4_to_int(self.doc_len_dense[idx]) as u64)
        } else {
            None
        }
    }

    /// The stored byte of each document id, `0` for none.
    pub fn doc_len_dense(&self) -> (r: &[u8])
        ensures
            r@ == self.dense(),
    {
        self.doc_len_dense.as_slice()
    }
}

} // verus!

verus! {

/// Recording a positive length of at most `i32::MAX` for a document, with
/// norms, stores a byte that reads back, through
/// [`FieldLengthStats::doc_len`], as the largest representable length at or
/// below it (see [`law_stored_length_is_largest_representable`]), and
/// leaves the byte of every other document as it was.
pub proof fn law_recorded_length_reads_back(dense: Seq<u8>, doc_id: u32, doc_len: u64, other: u32)
    requires
        0 < doc_len <= 0x7fff_ffff,
    ensures
        ({
            let after = padded(dense, (doc_id + 1) as nat).update(doc_id as int, byte_of_len(doc_len as u32));
            &&& byte_at(after, doc_id as int) != 0
            &&& byte_at(after, doc_id as int) == byte_of_len(doc_len as u32)
            &&& len_of_byte(byte_at(after, doc_id as int)) <= doc_len
            &&& other != doc_id ==> byte_at(after, other as int) == byte_at(dense, other as int)
        }),
{
    let v = doc_len as u32;
    law_stored_length_is_largest_representable(v);
    if v >= 24 {
        let x = (v - 24) as u64;
        if x < 8 {
            lemma_int4_code_small(x);
        } else {
            lemma_int4_code(x);
        }
    }
    let p = padded(dense, (doc_id + 1) as nat);
    assert(p.len() >= doc_id + 1);
    if other != doc_id {
        if other < dense.len() {
            assert(p[other as int] == dense[other as int]);
        } else if other < p.len() {
            assert(p[other as int] == 0);
        }
    }
}

// ----- statistics of one field across segments -----

/// The document counts of the first `n` statistics, summed.
pub open spec fn summed_counts(stats: Seq<FieldLengthStats>, n: nat) -> int
    decreases n,
{
    if n == 0 {
        0
    } else {
        summed_counts(stats, (n - 1) as nat) + stats[n - 1].count()
    }
}

/// The token totals of the first `n` statistics, summed.
pub open spec fn summed_totals(stats: Seq<FieldLengthStats>, n: nat) -> int
    decreases n,
{
    if n == 0 {
        0
    } else {
        summed_totals(stats, (n - 1) as nat) + stats[n - 1].total()
    }
}

/// The smallest of the recorded minimums of the first `n` statistics,
/// those without one (`0`) left out; `0` when none has one.
pub open spec fn min_of_mins(stats: Seq<FieldLengthStats>, n: nat) -> u64
    decreases n,
{
    if n == 0 {
        0
    } else {
        let m = min_of_mins(stats, (n - 1) as nat);
        let x = stats[n - 1].min_len();
        if x == 0 {
            m
        } else if m == 0 || x < m {
            x
        } else {
            m
        }
    }
}

/// The length statistics of one field summed over several segments.
#[derive(Debug, Clone, Copy, PartialEq, Eq)]
pub struct AggregatedFieldStats {
    pub doc_count: u64,
    pub total_terms: u64,
    /// `0` when no segment recorded a length.
    pub min_doc_len: u64,
}

impl AggregatedFieldStats {
    /// The smallest recorded length, none when no segment recorded one.
    pub fn min_doc_len(&self) -> (r: Option<u64>)
        ensures
            r == if self.min_doc_len > 0 {
                Some(self.min_doc_len)
            } else {
                None::<u64>
            },
    {
        if self.min_doc_len > 0 {
            Some(self.min_doc_len)
        } else {
            None
        }
    }
}

/// Sums the statistics that each segment recorded for one field: the
/// document counts and token totals add up and the minimum is the
/// smallest of the segments' minimums. None when no segment recorded the
/// field.
pub fn aggregate_field_stats(stats: &[FieldLengthStats]) -> (r: Option<AggregatedFieldStats>)
    requires
        summed_counts(stats@, stats@.len()) <= u64::MAX,
        summed_totals(stats@, stats@.len()) <= u64::MAX,
    ensures
        r is None <==> stats@.len() == 0,
        r matches Some(a) ==> {
            &&& a.doc_count == summed_counts(stats@, stats@.len())
            &&& a.total_terms == summed_totals(stats@, stats@.len())
            &&& a.min_doc_len == min_of_mins(stats@, stats@.len())
        },
{
    let mut doc_count: u64 = 0;
    let mut total_terms: u64 = 0;
    let mut min_doc_len: u64 = 0;
    let mut i: usize = 0;
    while i < stats.len()
        invariant
            i <= stats@.len(),
            summed_counts(stats@, stats@.len()) <= u64::MAX,
            summed_totals(stats@, stats@.len()) <= u64::MAX,
            doc_count == summed_counts(stats@, i as nat),
            total_terms == summed_totals(stats@, i as nat),
            min_doc_len == min_of_mins(stats@, i as nat),
        decreases stats.len() - i,
    {
        proof {
            lemma_sums_grow(stats@, (i + 1) as nat, stats@.len());
        }
        let s = &stats[i];
        doc_count = doc_count + s.doc_count;
        total_terms = total_terms + s.total_terms;
        if let Some(segment_min) = s.min_doc_len() {
            min_doc_len = if min_doc_len == 0 {
                segment_min
            } else if segment_min < min_doc_len {
                segment_min
            } else {
                min_doc_len
            };
        }
        i += 1;
    }
    if stats.len() == 0 {
        None
    } else {
        Some(AggregatedFieldStats { doc_count, total_terms, min_doc_len })
    }
}

proof fn lemma_sums_grow(stats: Seq<FieldLengthStats>, i: nat, n: nat)
    requires
        i <= n <= stats.len(),
    ensures
        summed_counts(stats, i) <= summed_counts(stats, n),
        summed_totals(stats, i) <= summed_totals(stats, n),
    decreases n - i,
{
    if i < n {
        lemma_sums_grow(stats, i, (n - 1) as nat);
    }
}

/// The aggregate minimum of the first `n` statistics is the smallest of
/// their recorded minimums: no recorded minimum is smaller, it is one of
/// them, and it is `0` exactly when none recorded one.
proof fn lemma_min_of_mins(stats: Seq<FieldLengthStats>, n: nat)
    requires
        n <= stats.len(),
    ensures
        forall|i: int| 0 <= i < n && #[trigger] stats[i].min_len() > 0 ==> min_of_mins(stats, n) <= stats[i].min_len(),
        min_of_mins(stats, n) == 0 <==> forall|i: int| 0 <= i < n ==> #[trigger] stats[i].min_len() == 0,
        min_of_mins(stats, n) > 0 ==> exists|i: int| 0 <= i < n && #[trigger] stats[i].min_len() == min_of_mins(stats, n),
    decreases n,
{
    if n > 0 {
        lemma_min_of_mins(stats, (n - 1) as nat);
        let m = min_of_mins(stats, (n - 1) as nat);
        if m > 0 {
            let k = choose|i: int| 0 <= i < n - 1 && #[trigger] stats[i].min_len() == m;
            assert(stats[k].min_len() == m);
        }
        if min_of_mins(stats, n) == 0 {
            assert(stats[n - 1].min_len() == 0);
        }
    }
}

/// The aggregate minimum is the smallest minimum that a segment recorded:
/// no segment recorded a smaller one, some segment recorded it, and it is
/// `0` exactly when no segment recorded a length.
pub proof fn law_aggregate_min_is_smallest(stats: Seq<FieldLengthStats>)
    ensures
        forall|i: int|
            0 <= i < stats.len() && #[trigger] stats[i].min_len() > 0 ==> min_of_mins(stats, stats.len()) <= stats[i].min_len(),
        min_of_mins(stats, stats.len()) == 0 <==> forall|i: int| 0 <= i < stats.len() ==> #[trigger] stats[i].min_len() == 0,
        min_of_mins(stats, stats.len()) > 0 ==> exists|i: int|
            0 <= i < stats.len() && #[trigger] stats[i].min_len() == min_of_mins(stats, stats.len()),
{
    lemma_min_of_mins(stats, stats.len());
}

/// The aggregate minimum depends only on which segments' statistics are
/// aggregated, not on their order or on repeats.
pub proof fn law_aggregate_min_ignores_order(stats: Seq<FieldLengthStats>, others: Seq<FieldLengthStats>)
    requires
        forall|s: FieldLengthStats| stats.contains(s) <==> others.contains(s),
    ensures
        min_of_mins(stats, stats.len()) == min_of_mins(others, others.len()),
{
    lemma_min_of_mins(stats, stats.len());
    lemma_min_of_mins(others, others.len());
    let a = min_of_mins(stats, stats.len());
    let b = min_of_mins(others, others.len());
    if a > 0 {
        let i = choose|i: int| 0 <= i < stats.len() && #[trigger] stats[i].min_len() == a;
        assert(stats.contains(stats[i]));
        let j = choose|j: int| 0 <= j < others.len() && others[j] == stats[i];
        assert(others[j].min_len() == a);
    }
    if b > 0 {
        let j = choose|j: int| 0 <= j < others.len() && #[trigger] others[j].min_len() == b;
        assert(others.contains(others[j]));
        let i = choose|i: int| 0 <= i < stats.len() && stats[i] == others[j];
        assert(stats[i].min_len() == b);
    }
}

/// The sums of the first `n` statistics read only those `n`.
proof fn lemma_sums_of_prefix(a: Seq<FieldLengthStats>, b: Seq<FieldLengthStats>, n: nat)
    requires
        n <= a.len(),
        n <= b.len(),
        forall|i: int| 0 <= i < n ==> a[i] == b[i],
    ensures
        summed_counts(a, n) == summed_counts(b, n),
        summed_totals(a, n) == summed_totals(b, n),
    decreases n,
{
    if n > 0 {
        lemma_sums_of_prefix(a, b, (n - 1) as nat);
        assert(a[n - 1] == b[n - 1]);
    }
}

/// Taking one statistic out of the sums takes out its count and total.
proof fn lemma_sums_without(stats: Seq<FieldLengthStats>, k: int)
    requires
        0 <= k < stats.len(),
    ensures
        summed_counts(stats, stats.len()) == summed_counts(stats.remove(k), (stats.len() - 1) as nat)
            + stats[k].count(),
        summed_totals(stats, stats.len()) == summed_totals(stats.remove(k), (stats.len() - 1) as nat)
            + stats[k].total(),
    decreases stats.len(),
{
    let n = stats.len();
    let r = stats.remove(k);
    let p = stats.drop_last();
    if k == n - 1 {
        lemma_sums_of_prefix(stats, r, (n - 1) as nat);
    } else {
        lemma_sums_without(p, k);
        let q = p.remove(k);
        assert forall|i: int| 0 <= i < n - 2 implies r[i] == q[i] by {
            if i < k {
                assert(r[i] == stats[i] && q[i] == p[i]);
            } else {
                assert(r[i] == stats[i + 1] && q[i] == p[i + 1]);
            }
        }
        lemma_sums_of_prefix(r, q, (n - 2) as nat);
        lemma_sums_of_prefix(stats, p, (n - 1) as nat);
        assert(r[n - 2] == stats[n - 1]);
    }
}

/// The summed document counts and token totals depend only on which
/// statistics are aggregated, each as often as it occurs, not on their
/// order.
pub proof fn law_aggregate_sums_ignore_order(stats: Seq<FieldLengthStats>, others: Seq<FieldLengthStats>)
    requires
        stats.to_multiset() == others.to_multiset(),
    ensures
        summed_counts(stats, stats.len()) == summed_counts(others, others.len()),
        summed_totals(stats, stats.len()) == summed_totals(others, others.len()),
    decreases stats.len(),
{
    stats.to_multiset_ensures();
    others.to_multiset_ensures();
    if stats.len() > 0 {
        let n = stats.len();
        let x = stats[n - 1];
        assert(stats.to_multiset().count(x) > 0) by {
            assert(stats.contains(x));
        }
        assert(others.contains(x));
        let k = choose|k: int| 0 <= k < others.len() && others[k] == x;
        let p = stats.drop_last();
        assert(stats.remove(n - 1) =~= p);
        let q = others.remove(k);
        assert(p.to_multiset() =~= q.to_multiset());
        law_aggregate_sums_ignore_order(p, q);
        lemma_sums_without(stats, n - 1);
        lemma_sums_without(others, k);
    }
}

/// With one segment the aggregate is that segment's own statistics.
pub proof fn law_single_segment_aggregate(s: FieldLengthStats)
    ensures
        summed_counts(seq![s], 1) == s.count(),
        summed_totals(seq![s], 1) == s.total(),
        min_of_mins(seq![s], 1) == s.min_len(),
{
    let q = seq![s];
    assert(q[0] == s);
    assert(summed_counts(q, 0) == 0);
    assert(summed_totals(q, 0) == 0);
    assert(min_of_mins(q, 0) == 0);
}

} // verus!
