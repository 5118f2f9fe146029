//! Lucene `DataOutput` / `DataInput` primitives over byte vectors:
//! variable-length integers, big-endian fixed-width integers and
//! length-prefixed UTF-8 strings.

use vstd::prelude::*;

use vstd::string::StringSliceAdditionalSpecFns;

verus! {

/// Errors raised while reading encoded bytes.
#[derive(Debug, Clone, Copy, PartialEq, Eq, Structural)]
pub enum DataIoError {
    /// The input ended before the value did.
    UnexpectedEof,
    /// A variable-length integer used more bytes (or bits) than allowed.
    InvalidVarint,
    /// A string length prefix was negative.
    NegativeLength { length: i32 },
    /// String bytes were not valid UTF-8.
    InvalidUtf8,
    /// A negative value was given to a variable-length long.
    NegativeVLong { value: i64 },
    /// A string's UTF-8 length does not fit a variable-length int.
    LengthOverflow { size: usize },
}

/// 7-bit groups, least significant first, high bit set on all but the last.
pub open spec fn encode_varint(v: nat) -> Seq<u8>
    decreases v,
{
    if v < 128 {
        seq![v as u8]
    } else {
        seq![(v % 128 + 128) as u8] + encode_varint(v / 128)
    }
}

/// Decodes a variable-length integer from the front of `s` using at most
/// `budget` bytes: the value and the number of bytes it took.
pub open spec fn decode_varint(s: Seq<u8>, budget: nat) -> Result<(nat, nat), DataIoError>
    decreases budget,
{
    if budget == 0 {
        Err(DataIoError::InvalidVarint)
    } else if s.len() == 0 {
        Err(DataIoError::UnexpectedEof)
    } else if s[0] < 128 {
        Ok((s[0] as nat, 1nat))
    } else {
        match decode_varint(s.drop_first(), (budget - 1) as nat) {
            Ok((v, n)) => Ok((((s[0] - 128) + 128 * v) as nat, n + 1)),
            Err(e) => Err(e),
        }
    }
}

pub open spec fn pow128(k: nat) -> nat
    decreases k,
{
    if k == 0 {
        1
    } else {
        128 * pow128((k - 1) as nat)
    }
}

/// Lucene `readVInt`: at most five bytes, the value must fit in 32 bits; the
/// bits are then read as an `i32`.
pub open spec fn decode_vint(s: Seq<u8>) -> Result<(i32, nat), DataIoError> {
    match decode_varint(s, 5) {
        Ok((v, n)) => if v < 0x1_0000_0000 {
            Ok(((v as u32) as i32, n))
        } else {
            Err(DataIoError::InvalidVarint)
        },
        Err(e) => Err(e),
    }
}

/// Lucene `readVLong`: at most nine bytes, so the value is never negative.
pub open spec fn decode_vlong(s: Seq<u8>) -> Result<(i64, nat), DataIoError> {
    match decode_varint(s, 9) {
        Ok((v, n)) => Ok((v as i64, n)),
        Err(e) => Err(e),
    }
}

pub open spec fn encode_vint(v: i32) -> Seq<u8> {
    encode_varint((v as u32) as nat)
}

pub proof fn lemma_decode_bound(s: Seq<u8>, budget: nat)
    ensures
        decode_varint(s, budget) matches Ok((v, n)) ==> v < pow128(n) && 1 <= n <= budget && n <= s.len(),
    decreases budget,
{
    assert(pow128(1) == 128) by {
        reveal_with_fuel(pow128, 2);
    }
    if budget > 0 && s.len() > 0 && s[0] >= 128 {
        lemma_decode_bound(s.drop_first(), (budget - 1) as nat);
        if let Ok((v, n)) = decode_varint(s.drop_first(), (budget - 1) as nat) {
            let p = pow128(n);
            assert(pow128(n + 1) == 128 * p);
            let b = s[0] - 128;
            assert(b + 128 * v < 128 * p) by (nonlinear_arith)
                requires
                    0 <= b < 128,
                    v < p,
            ;
        }
    }
}

pub proof fn lemma_pow128_mono(a: nat, b: nat)
    requires
        a <= b,
    ensures
        pow128(a) <= pow128(b),
    decreases b,
{
    if a < b {
        lemma_pow128_mono(a, (b - 1) as nat);
    }
}

/// Encoding then decoding gives the value back, whatever follows it.
pub proof fn lemma_varint_round_trip(v: nat, rest: Seq<u8>, budget: nat)
    requires
        budget >= 1,
        v < pow128(budget),
    ensures
        decode_varint(encode_varint(v) + rest, budget) == Ok::<(nat, nat), DataIoError>(
            (v, encode_varint(v).len()),
        ),
        encode_varint(v).len() <= budget,
    decreases v,
{
    let e = encode_varint(v);
    if v < 128 {
        assert((e + rest)[0] == v as u8);
    } else {
        let tail = encode_varint(v / 128);
        assert(budget >= 2) by {
            if budget == 1 {
                reveal_with_fuel(pow128, 2);
            }
        }
        let p = pow128((budget - 1) as nat);
        assert(pow128(budget) == 128 * p);
        assert(v / 128 < p) by (nonlinear_arith)
            requires
                v < 128 * p,
        ;
        lemma_varint_round_trip(v / 128, rest, (budget - 1) as nat);
        assert((e + rest).drop_first() =~= tail + rest);
        assert((e + rest)[0] == (v % 128 + 128) as u8);
    }
}

pub proof fn lemma_vint_round_trip(v: i32, rest: Seq<u8>)
    ensures
        decode_vint(encode_vint(v) + rest) == Ok::<(i32, nat), DataIoError>((v, encode_vint(v).len())),
        encode_vint(v).len() <= 5,
{
    let u = (v as u32) as nat;
    reveal_with_fuel(pow128, 6);
    assert(pow128(5) == 34359738368);
    lemma_varint_round_trip(u, rest, 5);
    assert(((v as u32) as i32) == v) by (bit_vector);
}

pub proof fn lemma_vlong_round_trip(v: i64, rest: Seq<u8>)
    requires
        v >= 0,
    ensures
        decode_vlong(encode_varint(v as nat) + rest) == Ok::<(i64, nat), DataIoError>(
            (v, encode_varint(v as nat).len()),
        ),
{
    reveal_with_fuel(pow128, 10);
    assert(pow128(9) == 0x8000_0000_0000_0000);
    lemma_varint_round_trip(v as nat, rest, 9);
}

/// Appends a variable-length encoding of `v`.
pub fn write_varint(out: &mut Vec<u8>, v: u64)
    ensures
        final(out)@ == old(out)@ + encode_varint(v as nat),
{
    let mut x = v;
    while x >= 128
        invariant
            out@ + encode_varint(x as nat) == old(out)@ + encode_varint(v as nat),
        decreases x,
    {
        let ghost before = out@;
        out.push((x % 128 + 128) as u8);
        proof {
            assert(encode_varint(x as nat) == seq![(x % 128 + 128) as u8] + encode_varint((x / 128) as nat));
            assert(out@ + encode_varint((x / 128) as nat) =~= before + encode_varint(x as nat));
        }
        x = x / 128;
    }
    let ghost before = out@;
    out.push(x as u8);
    assert(out@ =~= before + encode_varint(x as nat));
}

/// Lucene `writeVInt`: the 32 bits of `v` as an unsigned varint.
pub fn write_vint(out: &mut Vec<u8>, v: i32)
    ensures
        final(out)@ == old(out)@ + encode_vint(v),
{
    let u = v as u32;
    write_varint(out, u as u64);
}

/// Lucene `writeVLong`, which refuses negative values.
pub fn write_vlong(out: &mut Vec<u8>, v: i64) -> (r: Result<(), DataIoError>)
    ensures
        v < 0 ==> r == Err::<(), DataIoError>(DataIoError::NegativeVLong { value: v }) && final(out)@ == old(out)@,
        v >= 0 ==> r is Ok && final(out)@ == old(out)@ + encode_varint(v as nat),
{
    if v < 0 {
        return Err(DataIoError::NegativeVLong { value: v });
    }
    write_varint(out, v as u64);
    Ok(())
}

pub open spec fn be_bytes(v: nat, n: nat) -> Seq<u8>
    decreases n,
{
    if n == 0 {
        Seq::empty()
    } else {
        be_bytes(v / 256, (n - 1) as nat).push((v % 256) as u8)
    }
}

pub open spec fn be_value(s: Seq<u8>) -> nat
    decreases s.len(),
{
    if s.len() == 0 {
        0
    } else {
        be_value(s.drop_last()) * 256 + s.last() as nat
    }
}

pub proof fn lemma_be_round_trip(v: nat, n: nat)
    ensures
        be_bytes(v, n).len() == n,
        be_value(be_bytes(v, n)) == v % pow256(n),
    decreases n,
{
    if n > 0 {
        lemma_be_round_trip(v / 256, (n - 1) as nat);
        let s = be_bytes(v, n);
        assert(s.drop_last() =~= be_bytes(v / 256, (n - 1) as nat));
        let p = pow256((n - 1) as nat);
        assert(p > 0) by {
            lemma_pow256_pos((n - 1) as nat);
        }
        assert(((v / 256) % p) * 256 + v % 256 == v % (p * 256)) by (nonlinear_arith)
            requires
                p > 0,
        {
            vstd::arithmetic::div_mod::lemma_breakdown(v as int, 256, p as int);
        }
    }
}

pub open spec fn pow256(n: nat) -> nat
    decreases n,
{
    if n == 0 {
        1
    } else {
        pow256((n - 1) as nat) * 256
    }
}

pub proof fn lemma_pow256_pos(n: nat)
    ensures
        pow256(n) > 0,
    decreases n,
{
    if n > 0 {
        lemma_pow256_pos((n - 1) as nat);
    }
}

/// Appends the `n` low bytes of `v`, most significant first.
pub fn write_be(out: &mut Vec<u8>, v: u64, n: usize)
    requires
        n <= 8,
    ensures
        final(out)@ == old(out)@ + be_bytes(v as nat, n as nat),
    decreases n,
{
    if n == 0 {
        assert(old(out)@ + be_bytes(v as nat, 0) =~= old(out)@);
        return;
    }
    write_be(out, v / 256, n - 1);
    let ghost mid = out@;
    out.push((v % 256) as u8);
    assert(out@ =~= old(out)@ + be_bytes(v as nat, n as nat));
}

/// Builds a string from its UTF-8 bytes.
///
/// Trusted: calls `String::from_utf8`, which std documents as succeeding
/// exactly when the bytes are valid UTF-8, the string then holding those very
/// bytes; the contract states that, with `encode_utf8` as the byte encoding
/// of the resulting characters.
#[verifier::external_body]
fn string_from_utf8(bytes: Vec<u8>) -> (r: Option<String>)
    ensures
        r is Some <==> vstd::utf8::valid_utf8(bytes@),
        r matches Some(s) ==> vstd::utf8::encode_utf8(s@) == bytes@,
{
    match String::from_utf8(bytes) {
        Ok(s) => Some(s),
        Err(_) => None,
    }
}

/// The bytes of `s` from `pos` on.
pub open spec fn rest(s: Seq<u8>, pos: int) -> Seq<u8> {
    s.subrange(pos, s.len() as int)
}

/// Lucene `writeString`: the UTF-8 length as a vint, then the bytes.
pub open spec fn encode_string(s: Seq<char>) -> Seq<u8> {
    encode_vint(vstd::utf8::encode_utf8(s).len() as i32) + vstd::utf8::encode_utf8(s)
}

/// Lucene `readString`.
pub open spec fn decode_string(s: Seq<u8>) -> Result<(Seq<char>, nat), DataIoError> {
    match decode_vint(s) {
        Err(e) => Err(e),
        Ok((len, n)) => if len < 0 {
            Err(DataIoError::NegativeLength { length: len })
        } else if n + len > s.len() {
            Err(DataIoError::UnexpectedEof)
        } else {
            let b = s.subrange(n as int, n + len);
            if vstd::utf8::valid_utf8(b) {
                Ok((vstd::utf8::decode_utf8(b), n + len as nat))
            } else {
                Err(DataIoError::InvalidUtf8)
            }
        },
    }
}

pub proof fn lemma_string_round_trip(s: Seq<char>, tail: Seq<u8>)
    requires
        vstd::utf8::encode_utf8(s).len() <= i32::MAX,
    ensures
        decode_string(encode_string(s) + tail) == Ok::<(Seq<char>, nat), DataIoError>((s, encode_string(s).len())),
{
    let b = vstd::utf8::encode_utf8(s);
    let l = b.len() as i32;
    let e = encode_vint(l);
    lemma_vint_round_trip(l, b + tail);
    assert(encode_string(s) + tail =~= e + (b + tail));
    assert((e + (b + tail)).subrange(e.len() as int, e.len() + l) =~= b);
    vstd::utf8::encode_utf8_valid_utf8(s);
    vstd::utf8::encode_utf8_decode_utf8(s);
}

/// Lucene `writeString`; a string whose UTF-8 length exceeds `i32::MAX` is
/// refused.
pub fn write_string(out: &mut Vec<u8>, s: &str) -> (r: Result<(), DataIoError>)
    ensures
        s.spec_bytes().len() > i32::MAX ==> r == Err::<(), DataIoError>(
            DataIoError::LengthOverflow { size: s.spec_bytes().len() as usize },
        ) && final(out)@ == old(out)@,
        s.spec_bytes().len() <= i32::MAX ==> r is Ok && final(out)@ == old(out)@ + encode_string(s@),
{
    let bytes = s.as_bytes();
    if bytes.len() > 0x7fff_ffff {
        return Err(DataIoError::LengthOverflow { size: bytes.len() });
    }
    write_vint(out, bytes.len() as i32);
    write_bytes(out, bytes);
    assert(out@ =~= old(out)@ + encode_string(s@));
    Ok(())
}

/// Appends raw bytes.
pub fn write_bytes(out: &mut Vec<u8>, bytes: &[u8])
    ensures
        final(out)@ == old(out)@ + bytes@,
{
    let mut i: usize = 0;
    while i < bytes.len()
        invariant
            i <= bytes@.len(),
            out@ == old(out)@ + bytes@.subrange(0, i as int),
        decreases bytes.len() - i,
    {
        out.push(bytes[i]);
        i += 1;
        assert(out@ =~= old(out)@ + bytes@.subrange(0, i as int));
    }
    assert(bytes@.subrange(0, i as int) =~= bytes@);
}

/// The result of a read at `pos`: the value and the position after it.
pub open spec fn advanced<T>(r: Result<(T, nat), DataIoError>, pos: int) -> Result<(T, usize), DataIoError> {
    match r {
        Ok((v, n)) => Ok((v, (pos + n) as usize)),
        Err(e) => Err(e),
    }
}

pub fn read_byte(bytes: &[u8], pos: usize) -> (r: Result<(u8, usize), DataIoError>)
    ensures
        pos < bytes@.len() ==> r == Ok::<(u8, usize), DataIoError>((bytes@[pos as int], (pos + 1) as usize)),
        pos >= bytes@.len() ==> r == Err::<(u8, usize), DataIoError>(DataIoError::UnexpectedEof),
{
    if pos >= bytes.len() {
        return Err(DataIoError::UnexpectedEof);
    }
    Ok((bytes[pos], pos + 1))
}

/// Reads `n` raw bytes.
pub fn read_bytes(bytes: &[u8], pos: usize, n: usize) -> (r: Result<(Vec<u8>, usize), DataIoError>)
    requires
        pos <= bytes@.len(),
    ensures
        pos + n <= bytes@.len() ==> (r matches Ok((v, p)) && v@ == bytes@.subrange(pos as int, pos + n) && p == pos + n),
        pos + n > bytes@.len() ==> r == Err::<(Vec<u8>, usize), DataIoError>(DataIoError::UnexpectedEof),
{
    if n > bytes.len() - pos {
        return Err(DataIoError::UnexpectedEof);
    }
    let mut v: Vec<u8> = Vec::new();
    let mut i: usize = 0;
    while i < n
        invariant
            i <= n,
            pos + n <= bytes.len(),
            v@ == bytes@.subrange(pos as int, pos + i),
        decreases n - i,
    {
        assert(pos + i < bytes@.len());
        v.push(bytes[pos + i]);
        i += 1;
        assert(v@ =~= bytes@.subrange(pos as int, pos + i));
    }
    Ok((v, pos + n))
}

/// Reads a variable-length integer of at most `budget` bytes.
fn read_varint(bytes: &[u8], pos: usize, budget: usize) -> (r: Result<(u64, usize), DataIoError>)
    requires
        pos <= bytes@.len(),
        1 <= budget <= 9,
    ensures
        match decode_varint(rest(bytes@, pos as int), budget as nat) {
            Ok((v, n)) => r == Ok::<(u64, usize), DataIoError>((v as u64, (pos + n) as usize)),
            Err(e) => r == Err::<(u64, usize), DataIoError>(e),
        },
{
    let ghost whole = rest(bytes@, pos as int);
    let mut acc: u64 = 0;
    let mut mult: u64 = 1;
    let mut k: usize = 0;
    proof {
        lemma_decode_bound(whole, budget as nat);
        assert(rest(bytes@, pos as int).skip(0) =~= whole);
    }
    while k < budget
        invariant
            pos <= bytes@.len(),
            pos + k <= bytes.len(),
            1 <= budget <= 9,
            k < budget || k == budget,
            whole == rest(bytes@, pos as int),
            mult == pow128(k as nat),
            acc < mult,
            decode_varint(whole, budget as nat) == match decode_varint(whole.skip(k as int), (budget - k) as nat) {
                Ok((v, n)) => Ok(((acc + mult * v) as nat, (k + n) as nat)),
                Err(e) => Err::<(nat, nat), DataIoError>(e),
            },
        decreases budget - k,
    {
        if k >= bytes.len() - pos {
            assert(whole.skip(k as int).len() == 0);
            return Err(DataIoError::UnexpectedEof);
        }
        let b = bytes[pos + k];
        let ghost tail = whole.skip(k as int);
        assert(tail[0] == b);
        proof {
            lemma_pow128_mono(k as nat, 8);
            reveal_with_fuel(pow128, 9);
        }
        if b < 128 {
            proof {
                assert(acc + mult * (b as nat) < 0x8000_0000_0000_0000) by (nonlinear_arith)
                    requires
                        acc < mult,
                        mult <= 0x100_0000_0000_0000,
                        b < 128,
                ;
            }
            let value = acc + mult * (b as u64);
            return Ok((value, pos + k + 1));
        }
        proof {
            assert(tail.drop_first() =~= whole.skip(k + 1));
            assert(acc + mult * ((b - 128) as nat) < mult * 128) by (nonlinear_arith)
                requires
                    acc < mult,
                    b >= 128,
                    b < 256,
            ;
            assert(mult * 128 <= 0x8000_0000_0000_0000) by (nonlinear_arith)
                requires
                    mult <= 0x100_0000_0000_0000,
            ;
            if let Ok((v, n)) = decode_varint(whole.skip(k + 1), (budget - k - 1) as nat) {
                lemma_distribute(acc as nat, mult as nat, (b - 128) as nat, v);
            }
        }
        acc = acc + mult * ((b - 128) as u64);
        mult = mult * 128;
        k += 1;
    }
    proof {
        assert(whole.skip(budget as int).len() >= 0);
    }
    Err(DataIoError::InvalidVarint)
}

proof fn lemma_distribute(acc: nat, mult: nat, t: nat, v: nat)
    ensures
        acc + mult * (t + 128 * v) == (acc + mult * t) + (mult * 128) * v,
{
    assert(acc + mult * (t + 128 * v) == (acc + mult * t) + (mult * 128) * v) by (nonlinear_arith);
}

/// Lucene `readVInt`.
pub fn read_vint(bytes: &[u8], pos: usize) -> (r: Result<(i32, usize), DataIoError>)
    requires
        pos <= bytes@.len(),
    ensures
        r == advanced(decode_vint(rest(bytes@, pos as int)), pos as int),
{
    proof {
        lemma_decode_bound(rest(bytes@, pos as int), 5);
        reveal_with_fuel(pow128, 6);
        if let Ok((v, n)) = decode_varint(rest(bytes@, pos as int), 5) {
            lemma_pow128_mono(n, 5);
        }
    }
    let r = read_varint(bytes, pos, 5);
    match r {
        Ok((v, p)) => {
            if v >= 0x1_0000_0000 {
                return Err(DataIoError::InvalidVarint);
            }
            let u = v as u32;
            assert(u == v);
            Ok((u as i32, p))
        },
        Err(e) => Err(e),
    }
}

/// Lucene `readVLong`.
pub fn read_vlong(bytes: &[u8], pos: usize) -> (r: Result<(i64, usize), DataIoError>)
    requires
        pos <= bytes@.len(),
    ensures
        r == advanced(decode_vlong(rest(bytes@, pos as int)), pos as int),
{
    proof {
        lemma_decode_bound(rest(bytes@, pos as int), 9);
        reveal_with_fuel(pow128, 10);
        if let Ok((v, n)) = decode_varint(rest(bytes@, pos as int), 9) {
            lemma_pow128_mono(n, 9);
        }
    }
    match read_varint(bytes, pos, 9) {
        Ok((v, p)) => Ok((v as i64, p)),
        Err(e) => Err(e),
    }
}

/// Reads `n` bytes as a big-endian unsigned integer.
pub fn read_be(bytes: &[u8], pos: usize, n: usize) -> (r: Result<(u64, usize), DataIoError>)
    requires
        pos <= bytes@.len(),
        n <= 8,
    ensures
        pos + n <= bytes@.len() ==> r == Ok::<(u64, usize), DataIoError>(
            (be_value(bytes@.subrange(pos as int, pos + n)) as u64, (pos + n) as usize),
        ),
        pos + n > bytes@.len() ==> r == Err::<(u64, usize), DataIoError>(DataIoError::UnexpectedEof),
{
    if n > bytes.len() - pos {
        return Err(DataIoError::UnexpectedEof);
    }
    let mut acc: u64 = 0;
    let mut i: usize = 0;
    while i < n
        invariant
            i <= n <= 8,
            pos + n <= bytes.len(),
            acc == be_value(bytes@.subrange(pos as int, pos + i)),
            acc < pow256(i as nat),
        decreases n - i,
    {
        assert(pos + i < bytes@.len());
        let b = bytes[pos + i];
        proof {
            assert(bytes@.subrange(pos as int, pos + i + 1).drop_last() =~= bytes@.subrange(pos as int, pos + i));
            lemma_pow256_le(i as nat);
            assert(acc * 256 + b < pow256(i as nat) * 256) by (nonlinear_arith)
                requires
                    acc < pow256(i as nat),
                    b < 256,
            ;
        }
        acc = acc * 256 + b as u64;
        i += 1;
    }
    Ok((acc, pos + n))
}

proof fn lemma_pow256_le(i: nat)
    requires
        i < 8,
    ensures
        pow256(i) * 256 <= 0x1_0000_0000_0000_0000,
    decreases i,
{
    reveal_with_fuel(pow256, 9);
    if i > 0 {
        lemma_pow256_le((i - 1) as nat);
    }
}

/// Lucene `readString`.
pub fn read_string(bytes: &[u8], pos: usize) -> (r: Result<(String, usize), DataIoError>)
    requires
        pos <= bytes@.len(),
    ensures
        match decode_string(rest(bytes@, pos as int)) {
            Ok((s, n)) => (r matches Ok((v, p)) && v@ == s && p == pos + n),
            Err(e) => r == Err::<(String, usize), DataIoError>(e),
        },
{
    proof {
        assert(bytes@.len() == bytes.len());
        lemma_decode_bound(rest(bytes@, pos as int), 5);
    }
    let (len, p) = match read_vint(bytes, pos) {
        Ok(x) => x,
        Err(e) => return Err(e),
    };
    if len < 0 {
        return Err(DataIoError::NegativeLength { length: len });
    }
    proof {
        lemma_decode_bound(rest(bytes@, pos as int), 5);
        assert(p <= bytes@.len());
    }
    let (raw, q) = match read_bytes(bytes, p, len as usize) {
        Ok(x) => x,
        Err(e) => {
            return Err(e);
        },
    };
    proof {
        assert(p + len <= bytes@.len());
        assert(raw@ == bytes@.subrange(p as int, p + len));
        assert(p >= pos);
        let r0 = rest(bytes@, pos as int);
        assert(r0.len() == bytes@.len() - pos);
        assert forall|k: int| 0 <= k < len implies r0.subrange((p - pos) as int, (p - pos) + len)[k] == raw@[k] by {
            assert(r0[(p - pos) + k] == bytes@[p + k]);
        }
        assert(raw@ =~= r0.subrange((p - pos) as int, (p - pos) + len));
    }
    match string_from_utf8(raw) {
        Some(s) => {
            proof {
                vstd::utf8::encode_utf8_decode_utf8(s@);
            }
            Ok((s, q))
        },
        None => Err(DataIoError::InvalidUtf8),
    }
}

} // verus!

verus! {

/// A character takes at most four bytes of UTF-8.
pub proof fn lemma_utf8_len_bound(s: Seq<char>)
    ensures
        vstd::utf8::encode_utf8(s).len() <= 4 * s.len(),
    decreases s.len(),
{
    if s.len() > 0 {
        lemma_utf8_len_bound(s.drop_first());
    }
}

/// `s` holds `e` at `p`.
pub open spec fn holds_at(s: Seq<u8>, p: int, e: Seq<u8>) -> bool {
    0 <= p && p + e.len() <= s.len() && s.subrange(p, p + e.len()) == e
}

pub proof fn lemma_holds_split(s: Seq<u8>, p: int, x: Seq<u8>, y: Seq<u8>)
    requires
        holds_at(s, p, x + y),
    ensures
        holds_at(s, p, x),
        holds_at(s, p + x.len(), y),
{
    assert(s.subrange(p, p + x.len()) =~= (x + y).subrange(0, x.len() as int));
    assert(s.subrange(p + x.len(), p + x.len() + y.len()) =~= (x + y).subrange(x.len() as int, (x + y).len() as int));
    assert((x + y).subrange(0, x.len() as int) =~= x);
    assert((x + y).subrange(x.len() as int, (x + y).len() as int) =~= y);
}

pub proof fn lemma_rest_holds(s: Seq<u8>, p: int, e: Seq<u8>)
    requires
        holds_at(s, p, e),
    ensures
        rest(s, p) == e + rest(s, p + e.len()),
{
    assert(rest(s, p) =~= e + rest(s, p + e.len()));
}

} // verus!
