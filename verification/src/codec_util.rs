//! Lucene `CodecUtil`: the index header that opens a file and the checksum
//! footer that closes it.

use vstd::prelude::*;

use crate::data_io::{
    be_bytes, be_value, decode_string, encode_string, holds_at, lemma_holds_split,
    lemma_rest_holds, pow256, read_be, read_string, rest, write_be, write_bytes, write_string,
    DataIoError,
};
use crate::text::str_eq;
use vstd::string::StringSliceAdditionalSpecFns;

verus! {

/// The first four bytes of every header.
pub const CODEC_MAGIC: i32 = 0x3fd7_6c17;

/// The first four bytes of every footer: the complement of [`CODEC_MAGIC`].
pub const FOOTER_MAGIC: i32 = -1071082520;

/// The number of bytes of a footer.
pub const FOOTER_LENGTH: usize = 16;

/// Errors raised while checking a header or a footer.
#[derive(Debug, Clone, Copy, PartialEq, Eq, Structural)]
pub enum CodecError {
    DataIo(DataIoError),
    /// The header does not start with [`CODEC_MAGIC`].
    HeaderMismatch { actual: u32 },
    /// The header names another codec.
    CodecMismatch,
    /// The header's version is outside the accepted range.
    VersionOutOfRange { version: i32, min: i32, max: i32 },
    /// The header's suffix is not the expected one.
    SuffixMismatch,
    /// The input is shorter than a footer.
    FooterTooShort { length: usize },
    /// The footer does not start with [`FOOTER_MAGIC`].
    FooterMismatch { actual: u32 },
    /// The footer names a checksum algorithm other than CRC-32 (0).
    InvalidAlgorithm { algorithm: u32 },
    /// The stored checksum differs from the one computed.
    ChecksumMismatch { expected: u64, actual: u32 },
}

/// The CRC-32 (IEEE) checksum of `bytes`.
pub uninterp spec fn crc32(bytes: Seq<u8>) -> u32;

/// The CRC-32 checksum of `bytes`.
///
/// Trusted: calls `crc32fast::hash`, which runs a fresh `Hasher` over the
/// bytes and returns its `finalize`; the contract names the result `crc32`
/// of the bytes and says nothing more of it.
#[verifier::external_body]
fn crc32_of(bytes: &[u8]) -> (r: u32)
    ensures
        r == crc32(bytes@),
{
    crc32fast::hash(bytes)
}

pub open spec fn codec_magic() -> nat {
    0x3fd7_6c17
}

pub open spec fn footer_magic() -> nat {
    0xc028_93e8
}

/// Four bytes, most significant first, of the bits of `v`.
pub open spec fn be_i32(v: i32) -> Seq<u8> {
    be_bytes((v as u32) as nat, 4)
}

/// Eight bytes, most significant first, of the bits of `v`.
pub open spec fn be_i64(v: i64) -> Seq<u8> {
    be_bytes((v as u64) as nat, 8)
}

/// Reads `n` bytes at `pos` as a big-endian unsigned number.
pub open spec fn be_at(s: Seq<u8>, pos: int, n: nat) -> Result<(nat, int), DataIoError> {
    if 0 <= pos && pos + n <= s.len() {
        Ok((be_value(s.subrange(pos, pos + n)), pos + n))
    } else {
        Err(DataIoError::UnexpectedEof)
    }
}

/// Reads a big-endian `i32` at `pos`.
pub open spec fn be_i32_at(s: Seq<u8>, pos: int) -> Result<(i32, int), DataIoError> {
    match be_at(s, pos, 4) {
        Ok((v, p)) => Ok(((v as u32) as i32, p)),
        Err(e) => Err(e),
    }
}

/// Reads a big-endian `i64` at `pos`.
pub open spec fn be_i64_at(s: Seq<u8>, pos: int) -> Result<(i64, int), DataIoError> {
    match be_at(s, pos, 8) {
        Ok((v, p)) => Ok(((v as u64) as i64, p)),
        Err(e) => Err(e),
    }
}

pub proof fn lemma_pow256_facts()
    ensures
        pow256(1) == 0x100,
        pow256(4) == 0x1_0000_0000,
        pow256(8) == 0x1_0000_0000_0000_0000,
{
    reveal_with_fuel(pow256, 9);
}

/// Reading back a big-endian number gives the number, when it fits.
pub proof fn lemma_be_at(a: Seq<u8>, v: nat, n: nat, b: Seq<u8>)
    requires
        v < pow256(n),
    ensures
        be_at(a + be_bytes(v, n) + b, a.len() as int, n) == Ok::<(nat, int), DataIoError>(
            (v, (a.len() + n) as int),
        ),
{
    crate::data_io::lemma_be_round_trip(v, n);
    let s = a + be_bytes(v, n) + b;
    assert(s.subrange(a.len() as int, (a.len() + n) as int) =~= be_bytes(v, n));
    assert(v % pow256(n) == v) by (nonlinear_arith)
        requires
            v < pow256(n),
    ;
}

pub proof fn lemma_be_i32_at(a: Seq<u8>, v: i32, b: Seq<u8>)
    ensures
        be_i32_at(a + be_i32(v) + b, a.len() as int) == Ok::<(i32, int), DataIoError>((v, (a.len() + 4) as int)),
{
    lemma_pow256_facts();
    lemma_be_at(a, (v as u32) as nat, 4, b);
    assert(((v as u32) as i32) == v) by (bit_vector);
}

pub proof fn lemma_be_i64_at(a: Seq<u8>, v: i64, b: Seq<u8>)
    ensures
        be_i64_at(a + be_i64(v) + b, a.len() as int) == Ok::<(i64, int), DataIoError>((v, (a.len() + 8) as int)),
{
    lemma_pow256_facts();
    lemma_be_at(a, (v as u64) as nat, 8, b);
    assert(((v as u64) as i64) == v) by (bit_vector);
}

/// Reads a big-endian `i32`.
pub fn read_be_i32(bytes: &[u8], pos: usize) -> (r: Result<(i32, usize), DataIoError>)
    requires
        pos <= bytes@.len(),
    ensures
        match be_i32_at(bytes@, pos as int) {
            Ok((v, p)) => r == Ok::<(i32, usize), DataIoError>((v, p as usize)),
            Err(e) => r == Err::<(i32, usize), DataIoError>(e),
        },
{
    proof {
        lemma_pow256_facts();
        crate::data_io::lemma_be_round_trip(0, 0);
    }
    match read_be(bytes, pos, 4) {
        Ok((v, p)) => {
            proof {
                lemma_be_value_bound(bytes@.subrange(pos as int, pos + 4));
            }
            Ok(((v as u32) as i32, p))
        },
        Err(e) => Err(e),
    }
}

/// Reads a big-endian `i64`.
pub fn read_be_i64(bytes: &[u8], pos: usize) -> (r: Result<(i64, usize), DataIoError>)
    requires
        pos <= bytes@.len(),
    ensures
        match be_i64_at(bytes@, pos as int) {
            Ok((v, p)) => r == Ok::<(i64, usize), DataIoError>((v, p as usize)),
            Err(e) => r == Err::<(i64, usize), DataIoError>(e),
        },
{
    proof {
        lemma_pow256_facts();
    }
    match read_be(bytes, pos, 8) {
        Ok((v, p)) => {
            proof {
                lemma_be_value_bound(bytes@.subrange(pos as int, pos + 8));
            }
            Ok((v as i64, p))
        },
        Err(e) => Err(e),
    }
}

/// A big-endian number fits in as many bytes as it was read from.
pub proof fn lemma_be_value_bound(s: Seq<u8>)
    ensures
        be_value(s) < pow256(s.len()),
    decreases s.len(),
{
    if s.len() > 0 {
        lemma_be_value_bound(s.drop_last());
        let p = pow256((s.len() - 1) as nat);
        let x = be_value(s.drop_last());
        let b = s.last();
        assert(x * 256 + b < p * 256) by (nonlinear_arith)
            requires
                x < p,
                b < 256,
        ;
    }
}

/// Appends the bits of `v`, most significant first.
pub fn write_be_i32(out: &mut Vec<u8>, v: i32)
    ensures
        final(out)@ == old(out)@ + be_i32(v),
{
    write_be(out, (v as u32) as u64, 4);
}

/// Appends the bits of `v`, most significant first.
pub fn write_be_i64(out: &mut Vec<u8>, v: i64)
    ensures
        final(out)@ == old(out)@ + be_i64(v),
{
    write_be(out, v as u64, 8);
}

/// The footer written after `body`: the footer magic, the algorithm (0) and
/// the CRC-32 of everything before the checksum, as a big-endian long.
pub open spec fn footer_of(body: Seq<u8>) -> Seq<u8> {
    let head = be_bytes(footer_magic(), 4) + be_bytes(0, 4);
    head + be_bytes(crc32(body + head) as nat, 8)
}

/// `body` followed by its footer.
pub open spec fn with_footer(body: Seq<u8>) -> Seq<u8> {
    body + footer_of(body)
}

/// What checking the footer of `s` answers.
pub open spec fn footer_check(s: Seq<u8>) -> Result<(), CodecError> {
    let n = s.len() as int;
    if n < 16 {
        Err(CodecError::FooterTooShort { length: n as usize })
    } else if be_value(s.subrange(n - 16, n - 12)) != footer_magic() {
        Err(CodecError::FooterMismatch { actual: be_value(s.subrange(n - 16, n - 12)) as u32 })
    } else if be_value(s.subrange(n - 12, n - 8)) != 0 {
        Err(CodecError::InvalidAlgorithm { algorithm: be_value(s.subrange(n - 12, n - 8)) as u32 })
    } else if be_value(s.subrange(n - 8, n)) != crc32(s.subrange(0, n - 8)) as nat {
        Err(
            CodecError::ChecksumMismatch {
                expected: be_value(s.subrange(n - 8, n)) as u64,
                actual: crc32(s.subrange(0, n - 8)),
            },
        )
    } else {
        Ok(())
    }
}

/// The length of a footer.
pub fn footer_length() -> (r: usize)
    ensures
        r == 16,
{
    FOOTER_LENGTH
}

/// Appends the footer of what `out` holds.
pub fn write_footer(out: &mut Vec<u8>)
    ensures
        final(out)@ == with_footer(old(out)@),
{
    let ghost head = be_bytes(footer_magic(), 4) + be_bytes(0, 4);
    write_be(out, 0xc028_93e8, 4);
    write_be(out, 0, 4);
    assert(out@ =~= old(out)@ + head);
    let crc = crc32_of(out.as_slice());
    assert(crc == crc32(old(out)@ + head));
    write_be(out, crc as u64, 8);
    assert(out@ =~= old(out)@ + footer_of(old(out)@));
}

/// Checks the footer of `bytes`: its magic, its algorithm and the checksum
/// of everything before the checksum.
pub fn check_footer(bytes: &[u8]) -> (r: Result<(), CodecError>)
    ensures
        r == footer_check(bytes@),
{
    let n = bytes.len();
    if n < 16 {
        return Err(CodecError::FooterTooShort { length: n });
    }
    proof {
        lemma_pow256_facts();
        lemma_be_value_bound(bytes@.subrange(n - 16, n - 12));
        lemma_be_value_bound(bytes@.subrange(n - 12, n - 8));
        lemma_be_value_bound(bytes@.subrange(n - 8, n as int));
    }
    let magic = match read_be(bytes, n - 16, 4) {
        Ok((v, _)) => v,
        Err(e) => return Err(CodecError::DataIo(e)),
    };
    if magic != 0xc028_93e8 {
        proof {
            lemma_be_value_bound(bytes@.subrange(n - 16, n - 12));
        }
        return Err(CodecError::FooterMismatch { actual: magic as u32 });
    }
    let algorithm = match read_be(bytes, n - 12, 4) {
        Ok((v, _)) => v,
        Err(e) => return Err(CodecError::DataIo(e)),
    };
    if algorithm != 0 {
        proof {
            lemma_be_value_bound(bytes@.subrange(n - 12, n - 8));
        }
        return Err(CodecError::InvalidAlgorithm { algorithm: algorithm as u32 });
    }
    let expected = match read_be(bytes, n - 8, 8) {
        Ok((v, _)) => v,
        Err(e) => return Err(CodecError::DataIo(e)),
    };
    let head = vstd::slice::slice_subrange(bytes, 0, n - 8);
    let actual = crc32_of(head);
    if expected != actual as u64 {
        proof {
            lemma_be_value_bound(bytes@.subrange(n - 8, n as int));
        }
        return Err(CodecError::ChecksumMismatch { expected, actual });
    }
    Ok(())
}

/// A footer written by [`write_footer`] passes [`check_footer`], and the
/// body is what comes before it.
pub proof fn law_footer_round_trip(body: Seq<u8>)
    ensures
        footer_check(with_footer(body)) == Ok::<(), CodecError>(()),
        with_footer(body).len() == body.len() + 16,
        with_footer(body).subrange(0, body.len() as int) == body,
{
    lemma_pow256_facts();
    let head = be_bytes(footer_magic(), 4) + be_bytes(0, 4);
    let c = crc32(body + head) as nat;
    let s = with_footer(body);
    crate::data_io::lemma_be_round_trip(footer_magic(), 4);
    crate::data_io::lemma_be_round_trip(0, 4);
    crate::data_io::lemma_be_round_trip(c, 8);
    let n = s.len() as int;
    assert(n == body.len() + 16);
    assert(s.subrange(n - 16, n - 12) =~= be_bytes(footer_magic(), 4));
    assert(s.subrange(n - 12, n - 8) =~= be_bytes(0, 4));
    assert(s.subrange(n - 8, n) =~= be_bytes(c, 8));
    assert(s.subrange(0, n - 8) =~= body + head);
    assert(s.subrange(0, body.len() as int) =~= body);
    assert(footer_magic() % 0x1_0000_0000 == footer_magic());
    assert(c % 0x1_0000_0000_0000_0000 == c);
}

/// The index header: the codec magic, the codec name, the version, the
/// 16-byte id and the suffix, its length in one byte.
pub open spec fn encode_index_header(codec: Seq<char>, version: i32, id: Seq<u8>, suffix: Seq<char>) -> Seq<u8> {
    be_bytes(codec_magic(), 4) + encode_string(codec) + be_i32(version) + id + seq![
        vstd::utf8::encode_utf8(suffix).len() as u8,
    ] + vstd::utf8::encode_utf8(suffix)
}

/// Appends an index header.
pub fn write_index_header(out: &mut Vec<u8>, codec: &str, version: i32, id: &[u8; 16], suffix: &str)
    requires
        codec.spec_bytes().len() <= i32::MAX,
        suffix.spec_bytes().len() < 256,
    ensures
        final(out)@ == old(out)@ + encode_index_header(codec@, version, id@, suffix@),
{
    write_be(out, 0x3fd7_6c17, 4);
    let _ = write_string(out, codec);
    write_be_i32(out, version);
    write_bytes(out, id);
    let sb = suffix.as_bytes();
    proof {
        vstd::utf8::encode_utf8_decode_utf8(suffix@);
    }
    out.push(sb.len() as u8);
    write_bytes(out, sb);
    proof {
        assert(out@ =~= old(out)@ + encode_index_header(codec@, version, id@, suffix@));
    }
}

/// What reading an index header at `pos` answers: the id and the position
/// after the header.
#[verifier::opaque]
pub open spec fn index_header_at(
    s: Seq<u8>,
    pos: int,
    codec: Seq<char>,
    min: i32,
    max: i32,
    suffix: Seq<char>,
) -> Result<(Seq<u8>, int), CodecError> {
    match be_at(s, pos, 4) {
        Err(e) => Err(CodecError::DataIo(e)),
        Ok((m, p1)) => if m != codec_magic() {
            Err(CodecError::HeaderMismatch { actual: m as u32 })
        } else {
            match decode_string(rest(s, p1)) {
                Err(e) => Err(CodecError::DataIo(e)),
                Ok((name, n)) => if name != codec {
                    Err(CodecError::CodecMismatch)
                } else {
                    match be_i32_at(s, p1 + n) {
                        Err(e) => Err(CodecError::DataIo(e)),
                        Ok((version, p3)) => if version < min || version > max {
                            Err(CodecError::VersionOutOfRange { version, min, max })
                        } else if p3 + 17 > s.len() {
                            Err(CodecError::DataIo(DataIoError::UnexpectedEof))
                        } else {
                            let len = s[p3 + 16] as int;
                            let p5 = p3 + 17;
                            if p5 + len > s.len() {
                                Err(CodecError::DataIo(DataIoError::UnexpectedEof))
                            } else if s.subrange(p5, p5 + len) != vstd::utf8::encode_utf8(suffix) {
                                Err(CodecError::SuffixMismatch)
                            } else {
                                Ok((s.subrange(p3, p3 + 16), p5 + len))
                            }
                        },
                    }
                },
            }
        },
    }
}

/// A big-endian `i32` read where its bytes are held.
pub proof fn lemma_be_i32_holds(s: Seq<u8>, p: int, v: i32)
    requires
        holds_at(s, p, be_i32(v)),
    ensures
        be_i32_at(s, p) == Ok::<(i32, int), DataIoError>((v, p + 4)),
        be_i32(v).len() == 4,
{
    crate::data_io::lemma_be_round_trip((v as u32) as nat, 4);
    let a = s.subrange(0, p);
    let b = s.subrange(p + 4, s.len() as int);
    assert(s =~= a + be_i32(v) + b);
    lemma_be_i32_at(a, v, b);
}

/// A big-endian `i64` read where its bytes are held.
pub proof fn lemma_be_i64_holds(s: Seq<u8>, p: int, v: i64)
    requires
        holds_at(s, p, be_i64(v)),
    ensures
        be_i64_at(s, p) == Ok::<(i64, int), DataIoError>((v, p + 8)),
        be_i64(v).len() == 8,
{
    crate::data_io::lemma_be_round_trip((v as u64) as nat, 8);
    let a = s.subrange(0, p);
    let b = s.subrange(p + 8, s.len() as int);
    assert(s =~= a + be_i64(v) + b);
    lemma_be_i64_at(a, v, b);
}

/// A header written by [`write_index_header`] reads back as its id, with
/// the position just after it.
pub proof fn lemma_index_header_holds(
    s: Seq<u8>,
    codec: Seq<char>,
    version: i32,
    id: Seq<u8>,
    suffix: Seq<char>,
    min: i32,
    max: i32,
)
    requires
        vstd::utf8::encode_utf8(codec).len() <= i32::MAX,
        vstd::utf8::encode_utf8(suffix).len() < 256,
        id.len() == 16,
        min <= version <= max,
        holds_at(s, 0, encode_index_header(codec, version, id, suffix)),
    ensures
        index_header_at(s, 0, codec, min, max, suffix) == Ok::<(Seq<u8>, int), CodecError>(
            (id, encode_index_header(codec, version, id, suffix).len() as int),
        ),
{
    reveal(index_header_at);
    lemma_pow256_facts();
    let e0 = be_bytes(codec_magic(), 4);
    let e1 = encode_string(codec);
    let sb = vstd::utf8::encode_utf8(suffix);
    let l2 = e0 + e1;
    let l3 = l2 + be_i32(version);
    let l4 = l3 + id;
    let l5 = l4 + seq![sb.len() as u8];
    assert(l5 + sb == encode_index_header(codec, version, id, suffix));
    lemma_holds_split(s, 0, l5, sb);
    lemma_holds_split(s, 0, l4, seq![sb.len() as u8]);
    lemma_holds_split(s, 0, l3, id);
    lemma_holds_split(s, 0, l2, be_i32(version));
    lemma_holds_split(s, 0, e0, e1);
    crate::data_io::lemma_be_round_trip(codec_magic(), 4);
    assert(s.subrange(0, 4) == e0);
    lemma_rest_holds(s, 4, e1);
    crate::data_io::lemma_string_round_trip(codec, rest(s, 4 + e1.len() as int));
    lemma_be_i32_holds(s, l2.len() as int, version);
    let p3 = l3.len() as int;
    assert(s.subrange(p3, p3 + 16) == id);
    assert(s[p3 + 16] == s.subrange(p3 + 16, p3 + 17)[0]);
}

/// Reads an index header at `pos`, checking the codec name, the version
/// range and the suffix; answers the id and the position after the header.
pub fn read_index_header(
    bytes: &[u8],
    pos: usize,
    codec: &str,
    min: i32,
    max: i32,
    suffix: &str,
) -> (r: Result<([u8; 16], usize), CodecError>)
    requires
        pos <= bytes@.len(),
    ensures
        match index_header_at(bytes@, pos as int, codec@, min, max, suffix@) {
            Ok((id, p)) => (r matches Ok((v, q)) && v@ == id && q == p),
            Err(e) => r == Err::<([u8; 16], usize), CodecError>(e),
        },
{
    proof {
        reveal(index_header_at);
        lemma_pow256_facts();
        assert(bytes@.len() == bytes.len());
        if pos + 4 <= bytes@.len() {
            lemma_be_value_bound(bytes@.subrange(pos as int, pos + 4));
        }
    }
    let (m, p1) = match read_be(bytes, pos, 4) {
        Ok(x) => x,
        Err(e) => return Err(CodecError::DataIo(e)),
    };
    if m != 0x3fd7_6c17 {
        proof {
            lemma_be_value_bound(bytes@.subrange(pos as int, pos + 4));
        }
        return Err(CodecError::HeaderMismatch { actual: m as u32 });
    }
    let (name, p2) = match read_string(bytes, p1) {
        Ok(x) => x,
        Err(e) => return Err(CodecError::DataIo(e)),
    };
    if !str_eq(name.as_str(), codec) {
        return Err(CodecError::CodecMismatch);
    }
    proof {
        crate::data_io::lemma_decode_bound(rest(bytes@, p1 as int), 5);
    }
    let (version, p3) = match read_be_i32(bytes, p2) {
        Ok(x) => x,
        Err(e) => return Err(CodecError::DataIo(e)),
    };
    if version < min || version > max {
        return Err(CodecError::VersionOutOfRange { version, min, max });
    }
    if bytes.len() - p3 < 17 {
        return Err(CodecError::DataIo(DataIoError::UnexpectedEof));
    }
    let mut id: [u8; 16] = [0u8; 16];
    let mut i: usize = 0;
    while i < 16
        invariant
            i <= 16,
            bytes@.len() == bytes.len(),
            p3 + 17 <= bytes@.len(),
            forall|k: int| 0 <= k < i ==> id@[k] == bytes@[p3 + k],
            id@.len() == 16,
        decreases 16 - i,
    {
        id[i] = bytes[p3 + i];
        i += 1;
    }
    assert(id@ =~= bytes@.subrange(p3 as int, p3 + 16));
    let len = bytes[p3 + 16] as usize;
    let p5 = p3 + 17;
    if bytes.len() - p5 < len {
        return Err(CodecError::DataIo(DataIoError::UnexpectedEof));
    }
    let sb = suffix.as_bytes();
    proof {
        vstd::utf8::encode_utf8_decode_utf8(suffix@);
    }
    let mut same = sb.len() == len;
    if same {
        let mut k: usize = 0;
        while k < len
            invariant
                k <= len,
                bytes@.len() == bytes.len(),
                sb@.len() == len,
                p5 + len <= bytes@.len(),
                same == forall|j: int| 0 <= j < k ==> sb@[j] == bytes@[p5 + j],
            decreases len - k,
        {
            if sb[k] != bytes[p5 + k] {
                same = false;
            }
            k += 1;
        }
    }
    proof {
        let t = bytes@.subrange(p5 as int, p5 + len);
        if same {
            assert(t =~= sb@);
        } else {
            if t == sb@ {
                assert(sb@.len() == len);
                assert(forall|j: int| 0 <= j < len ==> sb@[j] == bytes@[p5 + j]) by {
                    assert forall|j: int| 0 <= j < len implies sb@[j] == bytes@[p5 + j] by {
                        assert(t[j] == bytes@[p5 + j]);
                    }
                }
            }
        }
    }
    if !same {
        return Err(CodecError::SuffixMismatch);
    }
    Ok((id, p5 + len))
}

} // verus!
