//! The bytes of a commit file (`segments_N`), as Lucene's `SegmentInfos`
//! writes them: an index header, the Lucene version, the commit's counters,
//! one record per segment, the user data and a checksum footer.

use vstd::prelude::*;

use crate::codec_util::{
    be_i32, be_i32_at, be_i64, be_i64_at, encode_index_header, index_header_at, CodecError,
};
use crate::data_io::{
    decode_string, decode_vint, decode_vlong, encode_string, encode_varint, encode_vint, holds_at,
    lemma_holds_split, lemma_rest_holds, rest, DataIoError,
};
use crate::codec_util::{read_be_i32, read_be_i64, write_be_i32, write_be_i64};
use crate::data_io::{read_string, read_vint, read_vlong, write_bytes, write_string, write_vint};
use crate::segment_infos::{
    base36_string, segments_chars, SegmentCommitInfo, SegmentInfosError, SegmentMetadata,
};
use crate::string_map::StringMap;
use vstd::string::StringSliceAdditionalSpecFns;

verus! {

/// The format version written in a commit file's header.
pub const COMMIT_FORMAT_VERSION: i32 = 10;

/// The abstract content of one segment's record.
pub struct SegmentView {
    pub name: Seq<char>,
    pub id: Seq<u8>,
    pub codec: Seq<char>,
    pub del_gen: i64,
    pub del_count: i32,
    pub field_infos_gen: i64,
    pub doc_values_gen: i64,
    pub soft_del_count: i32,
    pub sci_id: Option<Seq<u8>>,
    /// The field infos files, in the order written.
    pub field_infos_files: Seq<Seq<char>>,
    /// The doc values update files per field number, in the order written.
    pub doc_values_updates: Seq<(i32, Seq<Seq<char>>)>,
}

/// The abstract content of a commit file.
pub struct CommitView {
    pub generation: i64,
    pub id: Seq<u8>,
    pub lucene_version: (i32, i32, i32),
    pub index_created_version_major: i32,
    pub version: i64,
    pub counter: i64,
    pub segments: Seq<SegmentView>,
    /// The user data pairs, in the order written.
    pub user_data: Seq<(Seq<char>, Seq<char>)>,
}

// ----- encoding -----

pub open spec fn encode_strings(ss: Seq<Seq<char>>) -> Seq<u8>
    decreases ss.len(),
{
    if ss.len() == 0 {
        Seq::empty()
    } else {
        encode_strings(ss.drop_last()) + encode_string(ss.last())
    }
}

/// Lucene `writeSetOfStrings`: the count, then each string.
pub open spec fn encode_string_set(ss: Seq<Seq<char>>) -> Seq<u8> {
    encode_vint(ss.len() as i32) + encode_strings(ss)
}

pub open spec fn encode_pairs(ps: Seq<(Seq<char>, Seq<char>)>) -> Seq<u8>
    decreases ps.len(),
{
    if ps.len() == 0 {
        Seq::empty()
    } else {
        encode_pairs(ps.drop_last()) + encode_string(ps.last().0) + encode_string(ps.last().1)
    }
}

/// Lucene `writeMapOfStrings`: the count, then each key and value.
pub open spec fn encode_string_map(ps: Seq<(Seq<char>, Seq<char>)>) -> Seq<u8> {
    encode_vint(ps.len() as i32) + encode_pairs(ps)
}

pub open spec fn encode_dv_updates(ds: Seq<(i32, Seq<Seq<char>>)>) -> Seq<u8>
    decreases ds.len(),
{
    if ds.len() == 0 {
        Seq::empty()
    } else {
        encode_dv_updates(ds.drop_last()) + be_i32(ds.last().0) + encode_string_set(ds.last().1)
    }
}

pub open spec fn encode_sci_id(id: Option<Seq<u8>>) -> Seq<u8> {
    match id {
        Some(x) => seq![1u8] + x,
        None => seq![0u8],
    }
}

pub open spec fn encode_segment(v: SegmentView) -> Seq<u8> {
    encode_string(v.name) + v.id + encode_string(v.codec) + be_i64(v.del_gen) + be_i32(v.del_count)
        + be_i64(v.field_infos_gen) + be_i64(v.doc_values_gen) + be_i32(v.soft_del_count)
        + encode_sci_id(v.sci_id) + encode_string_set(v.field_infos_files) + be_i32(
        v.doc_values_updates.len() as i32,
    ) + encode_dv_updates(v.doc_values_updates)
}

pub open spec fn encode_segments(ss: Seq<SegmentView>) -> Seq<u8>
    decreases ss.len(),
{
    if ss.len() == 0 {
        Seq::empty()
    } else {
        encode_segments(ss.drop_last()) + encode_segment(ss.last())
    }
}

pub open spec fn encode_version(v: (i32, i32, i32)) -> Seq<u8> {
    encode_vint(v.0) + encode_vint(v.1) + encode_vint(v.2)
}

/// The commit file without its footer.
pub open spec fn encode_commit_body(v: CommitView) -> Seq<u8> {
    encode_index_header(segments_chars(), COMMIT_FORMAT_VERSION, v.id, base36_string(v.generation as int))
        + encode_version(v.lucene_version) + encode_vint(v.index_created_version_major) + be_i64(
        v.version,
    ) + encode_varint(v.counter as nat) + be_i32(v.segments.len() as i32) + (if v.segments.len()
        > 0 {
        encode_version(v.lucene_version)
    } else {
        Seq::empty()
    }) + encode_segments(v.segments) + encode_string_map(v.user_data)
}

// ----- what can be written -----

pub open spec fn utf8_len(s: Seq<char>) -> nat {
    vstd::utf8::encode_utf8(s).len()
}

pub open spec fn strings_ok(ss: Seq<Seq<char>>) -> bool {
    ss.len() <= i32::MAX && forall|i: int| 0 <= i < ss.len() ==> utf8_len(#[trigger] ss[i]) <= i32::MAX
}

pub open spec fn pairs_ok(ps: Seq<(Seq<char>, Seq<char>)>) -> bool {
    ps.len() <= i32::MAX && forall|i: int|
        0 <= i < ps.len() ==> utf8_len(#[trigger] ps[i].0) <= i32::MAX && utf8_len(ps[i].1) <= i32::MAX
}

pub open spec fn segment_ok(v: SegmentView) -> bool {
    &&& utf8_len(v.name) <= i32::MAX
    &&& v.id.len() == 16
    &&& utf8_len(v.codec) <= i32::MAX
    &&& (v.sci_id matches Some(x) ==> x.len() == 16)
    &&& strings_ok(v.field_infos_files)
    &&& v.doc_values_updates.len() <= i32::MAX
    &&& forall|i: int| 0 <= i < v.doc_values_updates.len() ==> strings_ok(#[trigger] v.doc_values_updates[i].1)
}

/// What a commit must hold to be written: every string and count fits the
/// format, the id has 16 bytes and the counter is not negative.
pub open spec fn commit_ok(v: CommitView) -> bool {
    &&& v.id.len() == 16
    &&& v.generation >= 0
    &&& v.index_created_version_major >= 6
    &&& v.counter >= 0
    &&& v.segments.len() <= i32::MAX
    &&& forall|i: int| 0 <= i < v.segments.len() ==> segment_ok(#[trigger] v.segments[i])
    &&& pairs_ok(v.user_data)
}

// ----- reading -----

pub open spec fn io(e: DataIoError) -> SegmentInfosError {
    SegmentInfosError::Codec(CodecError::DataIo(e))
}

#[verifier::opaque]
pub open spec fn string_at(s: Seq<u8>, pos: int) -> Result<(Seq<char>, int), SegmentInfosError> {
    match decode_string(rest(s, pos)) {
        Ok((v, n)) => Ok((v, pos + n)),
        Err(e) => Err(io(e)),
    }
}

#[verifier::opaque]
pub open spec fn vint_at(s: Seq<u8>, pos: int) -> Result<(i32, int), SegmentInfosError> {
    match decode_vint(rest(s, pos)) {
        Ok((v, n)) => Ok((v, pos + n)),
        Err(e) => Err(io(e)),
    }
}

#[verifier::opaque]
pub open spec fn vlong_at(s: Seq<u8>, pos: int) -> Result<(i64, int), SegmentInfosError> {
    match decode_vlong(rest(s, pos)) {
        Ok((v, n)) => Ok((v, pos + n)),
        Err(e) => Err(io(e)),
    }
}

#[verifier::opaque]
pub open spec fn int_at(s: Seq<u8>, pos: int) -> Result<(i32, int), SegmentInfosError> {
    match be_i32_at(s, pos) {
        Ok((v, p)) => Ok((v, p)),
        Err(e) => Err(io(e)),
    }
}

#[verifier::opaque]
pub open spec fn long_at(s: Seq<u8>, pos: int) -> Result<(i64, int), SegmentInfosError> {
    match be_i64_at(s, pos) {
        Ok((v, p)) => Ok((v, p)),
        Err(e) => Err(io(e)),
    }
}

pub open spec fn id_at(s: Seq<u8>, pos: int) -> Result<(Seq<u8>, int), SegmentInfosError> {
    if 0 <= pos && pos + 16 <= s.len() {
        Ok((s.subrange(pos, pos + 16), pos + 16))
    } else {
        Err(io(DataIoError::UnexpectedEof))
    }
}

pub open spec fn strings_at(s: Seq<u8>, pos: int, count: nat) -> Result<(Seq<Seq<char>>, int), SegmentInfosError>
    decreases count,
{
    if count == 0 {
        Ok((Seq::empty(), pos))
    } else {
        match strings_at(s, pos, (count - 1) as nat) {
            Err(e) => Err(e),
            Ok((xs, p)) => match string_at(s, p) {
                Err(e) => Err(e),
                Ok((x, q)) => Ok((xs.push(x), q)),
            },
        }
    }
}

/// Lucene `readSetOfStrings`, the strings kept in the order read.
pub open spec fn string_set_at(s: Seq<u8>, pos: int) -> Result<(Seq<Seq<char>>, int), SegmentInfosError> {
    match vint_at(s, pos) {
        Err(e) => Err(e),
        Ok((n, p)) => if n < 0 {
            Err(SegmentInfosError::InvalidCount { count: n })
        } else {
            strings_at(s, p, n as nat)
        },
    }
}

pub open spec fn pairs_at(s: Seq<u8>, pos: int, count: nat) -> Result<(Seq<(Seq<char>, Seq<char>)>, int), SegmentInfosError>
    decreases count,
{
    if count == 0 {
        Ok((Seq::empty(), pos))
    } else {
        match pairs_at(s, pos, (count - 1) as nat) {
            Err(e) => Err(e),
            Ok((xs, p)) => match string_at(s, p) {
                Err(e) => Err(e),
                Ok((k, q)) => match string_at(s, q) {
                    Err(e) => Err(e),
                    Ok((v, t)) => Ok((xs.push((k, v)), t)),
                },
            },
        }
    }
}

/// Lucene `readMapOfStrings`, the pairs kept in the order read.
pub open spec fn string_map_at(s: Seq<u8>, pos: int) -> Result<(Seq<(Seq<char>, Seq<char>)>, int), SegmentInfosError> {
    match vint_at(s, pos) {
        Err(e) => Err(e),
        Ok((n, p)) => if n < 0 {
            Err(SegmentInfosError::InvalidCount { count: n })
        } else {
            pairs_at(s, p, n as nat)
        },
    }
}

pub open spec fn dv_updates_at(s: Seq<u8>, pos: int, count: nat) -> Result<(Seq<(i32, Seq<Seq<char>>)>, int), SegmentInfosError>
    decreases count,
{
    if count == 0 {
        Ok((Seq::empty(), pos))
    } else {
        match dv_updates_at(s, pos, (count - 1) as nat) {
            Err(e) => Err(e),
            Ok((xs, p)) => match int_at(s, p) {
                Err(e) => Err(e),
                Ok((k, q)) => match string_set_at(s, q) {
                    Err(e) => Err(e),
                    Ok((fs, t)) => Ok((xs.push((k, fs)), t)),
                },
            },
        }
    }
}

/// The optional per-commit id: a marker byte, 1 followed by the id or 0.
pub open spec fn sci_id_at(s: Seq<u8>, pos: int) -> Result<(Option<Seq<u8>>, int), SegmentInfosError> {
    if !(0 <= pos < s.len()) {
        Err(io(DataIoError::UnexpectedEof))
    } else if s[pos] == 1 {
        match id_at(s, pos + 1) {
            Err(e) => Err(e),
            Ok((x, p)) => Ok((Some(x), p)),
        }
    } else if s[pos] == 0 {
        Ok((None, pos + 1))
    } else {
        Err(SegmentInfosError::InvalidIdMarker { marker: s[pos] })
    }
}

/// The doc values updates: their count, then per field its number and files.
pub open spec fn dv_map_at(s: Seq<u8>, pos: int) -> Result<(Seq<(i32, Seq<Seq<char>>)>, int), SegmentInfosError> {
    match int_at(s, pos) {
        Err(e) => Err(e),
        Ok((n, p)) => if n < 0 {
            Err(SegmentInfosError::InvalidCount { count: n })
        } else {
            dv_updates_at(s, p, n as nat)
        },
    }
}

/// The four 64-bit and 32-bit counters of a segment record, in order.
pub open spec fn segment_counters_at(s: Seq<u8>, pos: int) -> Result<((i64, i32, i64, i64, i32), int), SegmentInfosError> {
    match long_at(s, pos) {
        Err(e) => Err(e),
        Ok((del_gen, p1)) => match int_at(s, p1) {
            Err(e) => Err(e),
            Ok((del_count, p2)) => match long_at(s, p2) {
                Err(e) => Err(e),
                Ok((fi_gen, p3)) => match long_at(s, p3) {
                    Err(e) => Err(e),
                    Ok((dv_gen, p4)) => match int_at(s, p4) {
                        Err(e) => Err(e),
                        Ok((soft, p5)) => Ok(((del_gen, del_count, fi_gen, dv_gen, soft), p5)),
                    },
                },
            },
        },
    }
}

pub open spec fn segment_at(s: Seq<u8>, pos: int) -> Result<(SegmentView, int), SegmentInfosError> {
    match string_at(s, pos) {
        Err(e) => Err(e),
        Ok((name, p1)) => match id_at(s, p1) {
            Err(e) => Err(e),
            Ok((id, p2)) => match string_at(s, p2) {
                Err(e) => Err(e),
                Ok((codec, p3)) => match segment_counters_at(s, p3) {
                    Err(e) => Err(e),
                    Ok((c, p4)) => match sci_id_at(s, p4) {
                        Err(e) => Err(e),
                        Ok((sci_id, p5)) => match string_set_at(s, p5) {
                            Err(e) => Err(e),
                            Ok((files, p6)) => match dv_map_at(s, p6) {
                                Err(e) => Err(e),
                                Ok((dv, p7)) => Ok(
                                    (
                                        SegmentView {
                                            name,
                                            id,
                                            codec,
                                            del_gen: c.0,
                                            del_count: c.1,
                                            field_infos_gen: c.2,
                                            doc_values_gen: c.3,
                                            soft_del_count: c.4,
                                            sci_id,
                                            field_infos_files: files,
                                            doc_values_updates: dv,
                                        },
                                        p7,
                                    ),
                                ),
                            },
                        },
                    },
                },
            },
        },
    }
}

pub open spec fn segments_at(s: Seq<u8>, pos: int, count: nat) -> Result<(Seq<SegmentView>, int), SegmentInfosError>
    decreases count,
{
    if count == 0 {
        Ok((Seq::empty(), pos))
    } else {
        match segments_at(s, pos, (count - 1) as nat) {
            Err(e) => Err(e),
            Ok((xs, p)) => match segment_at(s, p) {
                Err(e) => Err(e),
                Ok((x, q)) => Ok((xs.push(x), q)),
            },
        }
    }
}

pub open spec fn version_at(s: Seq<u8>, pos: int) -> Result<((i32, i32, i32), int), SegmentInfosError> {
    match vint_at(s, pos) {
        Err(e) => Err(e),
        Ok((a, p1)) => match vint_at(s, p1) {
            Err(e) => Err(e),
            Ok((b, p2)) => match vint_at(s, p2) {
                Err(e) => Err(e),
                Ok((c, p3)) => Ok(((a, b, c), p3)),
            },
        },
    }
}

/// The oldest Lucene version among the segments, present when there are
/// segments; read and not kept.
pub open spec fn min_version_at(s: Seq<u8>, pos: int, count: i32) -> Result<int, SegmentInfosError> {
    if count > 0 {
        match version_at(s, pos) {
            Err(e) => Err(e),
            Ok((v, p)) => Ok(p),
        }
    } else {
        Ok(pos)
    }
}

/// The commit's header fields: id, Lucene version, index creation major,
/// version and counter.
pub open spec fn commit_head_at(s: Seq<u8>, generation: i64) -> Result<((Seq<u8>, (i32, i32, i32), i32, i64, i64), int), SegmentInfosError> {
    match index_header_at(
        s,
        0,
        segments_chars(),
        COMMIT_FORMAT_VERSION,
        COMMIT_FORMAT_VERSION,
        base36_string(generation as int),
    ) {
        Err(e) => Err(SegmentInfosError::Codec(e)),
        Ok((id, p0)) => match version_at(s, p0) {
            Err(e) => Err(e),
            Ok((lv, p1)) => match vint_at(s, p1) {
                Err(e) => Err(e),
                Ok((created, p2)) => if created < 6 {
                    Err(SegmentInfosError::UnsupportedIndexCreatedVersion { major: created })
                } else {
                    match long_at(s, p2) {
                        Err(e) => Err(e),
                        Ok((version, p3)) => match vlong_at(s, p3) {
                            Err(e) => Err(e),
                            Ok((counter, p4)) => Ok(((id, lv, created, version, counter), p4)),
                        },
                    }
                },
            },
        },
    }
}

/// Reads a commit body (the file without its footer) of generation
/// `generation`.
pub open spec fn commit_at(s: Seq<u8>, generation: i64) -> Result<(CommitView, int), SegmentInfosError> {
    match commit_head_at(s, generation) {
        Err(e) => Err(e),
        Ok((h, p4)) => match int_at(s, p4) {
            Err(e) => Err(e),
            Ok((n, p5)) => if n < 0 {
                Err(SegmentInfosError::InvalidCount { count: n })
            } else {
                match min_version_at(s, p5, n) {
                    Err(e) => Err(e),
                    Ok(p6) => match segments_at(s, p6, n as nat) {
                        Err(e) => Err(e),
                        Ok((segments, p7)) => match string_map_at(s, p7) {
                            Err(e) => Err(e),
                            Ok((user_data, p8)) => Ok(
                                (
                                    CommitView {
                                        generation,
                                        id: h.0,
                                        lucene_version: h.1,
                                        index_created_version_major: h.2,
                                        version: h.3,
                                        counter: h.4,
                                        segments,
                                        user_data,
                                    },
                                    p8,
                                ),
                            ),
                        },
                    },
                }
            },
        },
    }
}

/// What reading a commit body answers: the commit, or an error; bytes left
/// after the user data are refused.
pub open spec fn parse_commit(s: Seq<u8>, generation: i64) -> Result<CommitView, SegmentInfosError> {
    match commit_at(s, generation) {
        Err(e) => Err(e),
        Ok((v, p)) => if p < s.len() {
            Err(SegmentInfosError::TrailingBytes { count: (s.len() - p) as usize })
        } else {
            Ok(v)
        },
    }
}

} // verus!

verus! {

// ----- reading back what was written -----

pub proof fn lemma_string_at(s: Seq<u8>, p: int, v: Seq<char>)
    requires
        utf8_len(v) <= i32::MAX,
        holds_at(s, p, encode_string(v)),
    ensures
        string_at(s, p) == Ok::<(Seq<char>, int), SegmentInfosError>((v, p + encode_string(v).len())),
{
    reveal(string_at);
    lemma_rest_holds(s, p, encode_string(v));
    crate::data_io::lemma_string_round_trip(v, rest(s, p + encode_string(v).len()));
}

pub proof fn lemma_vint_at(s: Seq<u8>, p: int, v: i32)
    requires
        holds_at(s, p, encode_vint(v)),
    ensures
        vint_at(s, p) == Ok::<(i32, int), SegmentInfosError>((v, p + encode_vint(v).len())),
{
    reveal(vint_at);
    lemma_rest_holds(s, p, encode_vint(v));
    crate::data_io::lemma_vint_round_trip(v, rest(s, p + encode_vint(v).len()));
}

pub proof fn lemma_vlong_at(s: Seq<u8>, p: int, v: i64)
    requires
        v >= 0,
        holds_at(s, p, encode_varint(v as nat)),
    ensures
        vlong_at(s, p) == Ok::<(i64, int), SegmentInfosError>((v, p + encode_varint(v as nat).len())),
{
    reveal(vlong_at);
    lemma_rest_holds(s, p, encode_varint(v as nat));
    crate::data_io::lemma_vlong_round_trip(v, rest(s, p + encode_varint(v as nat).len()));
}

pub proof fn lemma_int_at(s: Seq<u8>, p: int, v: i32)
    requires
        holds_at(s, p, be_i32(v)),
    ensures
        int_at(s, p) == Ok::<(i32, int), SegmentInfosError>((v, p + 4)),
        be_i32(v).len() == 4,
{
    reveal(int_at);
    crate::codec_util::lemma_be_i32_holds(s, p, v);
}

pub proof fn lemma_long_at(s: Seq<u8>, p: int, v: i64)
    requires
        holds_at(s, p, be_i64(v)),
    ensures
        long_at(s, p) == Ok::<(i64, int), SegmentInfosError>((v, p + 8)),
        be_i64(v).len() == 8,
{
    reveal(long_at);
    crate::codec_util::lemma_be_i64_holds(s, p, v);
}

pub proof fn lemma_strings_at(s: Seq<u8>, p: int, ss: Seq<Seq<char>>)
    requires
        forall|i: int| 0 <= i < ss.len() ==> utf8_len(#[trigger] ss[i]) <= i32::MAX,
        holds_at(s, p, encode_strings(ss)),
    ensures
        strings_at(s, p, ss.len()) == Ok::<(Seq<Seq<char>>, int), SegmentInfosError>(
            (ss, p + encode_strings(ss).len()),
        ),
    decreases ss.len(),
{
    if ss.len() == 0 {
        assert(ss =~= Seq::<Seq<char>>::empty());
    } else {
        let init = ss.drop_last();
        let last = ss.last();
        assert(utf8_len(ss[ss.len() - 1]) <= i32::MAX);
        lemma_holds_split(s, p, encode_strings(init), encode_string(last));
        lemma_strings_at(s, p, init);
        lemma_string_at(s, p + encode_strings(init).len(), last);
        assert(init.push(last) =~= ss);
    }
}

pub proof fn lemma_string_set_at(s: Seq<u8>, p: int, ss: Seq<Seq<char>>)
    requires
        strings_ok(ss),
        holds_at(s, p, encode_string_set(ss)),
    ensures
        string_set_at(s, p) == Ok::<(Seq<Seq<char>>, int), SegmentInfosError>(
            (ss, p + encode_string_set(ss).len()),
        ),
{
    let n = ss.len() as i32;
    lemma_holds_split(s, p, encode_vint(n), encode_strings(ss));
    lemma_vint_at(s, p, n);
    lemma_strings_at(s, p + encode_vint(n).len(), ss);
}

pub proof fn lemma_pairs_at(s: Seq<u8>, p: int, ps: Seq<(Seq<char>, Seq<char>)>)
    requires
        forall|i: int|
            0 <= i < ps.len() ==> utf8_len(#[trigger] ps[i].0) <= i32::MAX && utf8_len(ps[i].1) <= i32::MAX,
        holds_at(s, p, encode_pairs(ps)),
    ensures
        pairs_at(s, p, ps.len()) == Ok::<(Seq<(Seq<char>, Seq<char>)>, int), SegmentInfosError>(
            (ps, p + encode_pairs(ps).len()),
        ),
    decreases ps.len(),
{
    if ps.len() == 0 {
        assert(ps =~= Seq::<(Seq<char>, Seq<char>)>::empty());
    } else {
        let init = ps.drop_last();
        let last = ps.last();
        let ek = encode_string(last.0);
        let ev = encode_string(last.1);
        assert(utf8_len(ps[ps.len() - 1].0) <= i32::MAX);
        lemma_holds_split(s, p, encode_pairs(init) + ek, ev);
        lemma_holds_split(s, p, encode_pairs(init), ek);
        lemma_pairs_at(s, p, init);
        let p1 = p + encode_pairs(init).len();
        lemma_string_at(s, p1, last.0);
        lemma_string_at(s, p1 + ek.len(), last.1);
        assert(init.push(last) =~= ps);
    }
}

pub proof fn lemma_string_map_at(s: Seq<u8>, p: int, ps: Seq<(Seq<char>, Seq<char>)>)
    requires
        pairs_ok(ps),
        holds_at(s, p, encode_string_map(ps)),
    ensures
        string_map_at(s, p) == Ok::<(Seq<(Seq<char>, Seq<char>)>, int), SegmentInfosError>(
            (ps, p + encode_string_map(ps).len()),
        ),
{
    let n = ps.len() as i32;
    lemma_holds_split(s, p, encode_vint(n), encode_pairs(ps));
    lemma_vint_at(s, p, n);
    lemma_pairs_at(s, p + encode_vint(n).len(), ps);
}

pub proof fn lemma_dv_updates_at(s: Seq<u8>, p: int, ds: Seq<(i32, Seq<Seq<char>>)>)
    requires
        forall|i: int| 0 <= i < ds.len() ==> strings_ok(#[trigger] ds[i].1),
        holds_at(s, p, encode_dv_updates(ds)),
    ensures
        dv_updates_at(s, p, ds.len()) == Ok::<(Seq<(i32, Seq<Seq<char>>)>, int), SegmentInfosError>(
            (ds, p + encode_dv_updates(ds).len()),
        ),
    decreases ds.len(),
{
    if ds.len() == 0 {
        assert(ds =~= Seq::<(i32, Seq<Seq<char>>)>::empty());
    } else {
        let init = ds.drop_last();
        let last = ds.last();
        let ek = be_i32(last.0);
        let ef = encode_string_set(last.1);
        assert(strings_ok(ds[ds.len() - 1].1));
        lemma_holds_split(s, p, encode_dv_updates(init) + ek, ef);
        lemma_holds_split(s, p, encode_dv_updates(init), ek);
        lemma_dv_updates_at(s, p, init);
        let p1 = p + encode_dv_updates(init).len();
        lemma_int_at(s, p1, last.0);
        lemma_string_set_at(s, p1 + 4, last.1);
        assert(init.push(last) =~= ds);
    }
}

pub proof fn lemma_sci_id_at(s: Seq<u8>, p: int, id: Option<Seq<u8>>)
    requires
        id matches Some(x) ==> x.len() == 16,
        holds_at(s, p, encode_sci_id(id)),
    ensures
        sci_id_at(s, p) == Ok::<(Option<Seq<u8>>, int), SegmentInfosError>(
            (id, p + encode_sci_id(id).len()),
        ),
{
    assert(s[p] == s.subrange(p, p + encode_sci_id(id).len())[0]);
    if let Some(x) = id {
        assert(s.subrange(p + 1, p + 17) =~= s.subrange(p, p + 17).subrange(1, 17));
        assert(encode_sci_id(id).subrange(1, 17) =~= x);
    }
}

pub proof fn lemma_segment_at(s: Seq<u8>, p: int, v: SegmentView)
    requires
        segment_ok(v),
        holds_at(s, p, encode_segment(v)),
    ensures
        segment_at(s, p) == Ok::<(SegmentView, int), SegmentInfosError>((v, p + encode_segment(v).len())),
{
    let e1 = encode_string(v.name);
    let l2 = e1 + v.id;
    let l3 = l2 + encode_string(v.codec);
    let l4 = l3 + be_i64(v.del_gen);
    let l5 = l4 + be_i32(v.del_count);
    let l6 = l5 + be_i64(v.field_infos_gen);
    let l7 = l6 + be_i64(v.doc_values_gen);
    let l8 = l7 + be_i32(v.soft_del_count);
    let l9 = l8 + encode_sci_id(v.sci_id);
    let l10 = l9 + encode_string_set(v.field_infos_files);
    let nd = v.doc_values_updates.len() as i32;
    let l11 = l10 + be_i32(nd);
    let l12 = l11 + encode_dv_updates(v.doc_values_updates);
    assert(l12 == encode_segment(v));
    lemma_holds_split(s, p, l11, encode_dv_updates(v.doc_values_updates));
    lemma_holds_split(s, p, l10, be_i32(nd));
    lemma_holds_split(s, p, l9, encode_string_set(v.field_infos_files));
    lemma_holds_split(s, p, l8, encode_sci_id(v.sci_id));
    lemma_holds_split(s, p, l7, be_i32(v.soft_del_count));
    lemma_holds_split(s, p, l6, be_i64(v.doc_values_gen));
    lemma_holds_split(s, p, l5, be_i64(v.field_infos_gen));
    lemma_holds_split(s, p, l4, be_i32(v.del_count));
    lemma_holds_split(s, p, l3, be_i64(v.del_gen));
    lemma_holds_split(s, p, l2, encode_string(v.codec));
    lemma_holds_split(s, p, e1, v.id);
    lemma_string_at(s, p, v.name);
    assert(s.subrange(p + e1.len(), p + e1.len() + 16) == v.id);
    lemma_string_at(s, p + l2.len(), v.codec);
    lemma_long_at(s, p + l3.len(), v.del_gen);
    lemma_int_at(s, p + l4.len(), v.del_count);
    lemma_long_at(s, p + l5.len(), v.field_infos_gen);
    lemma_long_at(s, p + l6.len(), v.doc_values_gen);
    lemma_int_at(s, p + l7.len(), v.soft_del_count);
    lemma_sci_id_at(s, p + l8.len(), v.sci_id);
    lemma_string_set_at(s, p + l9.len(), v.field_infos_files);
    lemma_int_at(s, p + l10.len(), nd);
    lemma_dv_updates_at(s, p + l11.len(), v.doc_values_updates);
}

pub proof fn lemma_segments_at(s: Seq<u8>, p: int, ss: Seq<SegmentView>)
    requires
        forall|i: int| 0 <= i < ss.len() ==> segment_ok(#[trigger] ss[i]),
        holds_at(s, p, encode_segments(ss)),
    ensures
        segments_at(s, p, ss.len()) == Ok::<(Seq<SegmentView>, int), SegmentInfosError>(
            (ss, p + encode_segments(ss).len()),
        ),
    decreases ss.len(),
{
    if ss.len() == 0 {
        assert(ss =~= Seq::<SegmentView>::empty());
    } else {
        let init = ss.drop_last();
        let last = ss.last();
        assert(segment_ok(ss[ss.len() - 1]));
        lemma_holds_split(s, p, encode_segments(init), encode_segment(last));
        lemma_segments_at(s, p, init);
        lemma_segment_at(s, p + encode_segments(init).len(), last);
        assert(init.push(last) =~= ss);
    }
}

pub proof fn lemma_version_at(s: Seq<u8>, p: int, v: (i32, i32, i32))
    requires
        holds_at(s, p, encode_version(v)),
    ensures
        version_at(s, p) == Ok::<((i32, i32, i32), int), SegmentInfosError>((v, p + encode_version(v).len())),
{
    let e1 = encode_vint(v.0);
    let e2 = encode_vint(v.1);
    lemma_holds_split(s, p, e1 + e2, encode_vint(v.2));
    lemma_holds_split(s, p, e1, e2);
    lemma_vint_at(s, p, v.0);
    lemma_vint_at(s, p + e1.len(), v.1);
    lemma_vint_at(s, p + e1.len() + e2.len(), v.2);
}

/// The base-36 digits of a generation are few enough for a header suffix.
pub proof fn lemma_base36_len(v: nat, k: nat)
    requires
        v < vstd::arithmetic::power::pow(36, k),
        k >= 1,
    ensures
        crate::segment_infos::base36_digits(v).len() <= k,
    decreases k,
{
    vstd::arithmetic::power::lemma_pow_positive(36, (k - 1) as nat);
    if v >= 36 {
        assert(k >= 2) by {
            if k == 1 {
                vstd::arithmetic::power::lemma_pow1(36);
            }
        }
        vstd::arithmetic::power::lemma_pow_adds(36, 1, (k - 1) as nat);
        vstd::arithmetic::power::lemma_pow1(36);
        assert(v / 36 < vstd::arithmetic::power::pow(36, (k - 1) as nat)) by (nonlinear_arith)
            requires
                v < 36 * vstd::arithmetic::power::pow(36, (k - 1) as nat),
        ;
        lemma_base36_len(v / 36, (k - 1) as nat);
    }
}

/// The commit file's body reads back as the commit it was written from.
#[verifier::rlimit(40)]
pub proof fn law_commit_round_trip(v: CommitView)
    requires
        commit_ok(v),
    ensures
        parse_commit(encode_commit_body(v), v.generation) == Ok::<CommitView, SegmentInfosError>(v),
{
    let g = v.generation as nat;
    assert(vstd::arithmetic::power::pow(36, 13) > i64::MAX) by {
        vstd::arithmetic::power::lemma_pow_adds(36, 6, 7);
        reveal_with_fuel(vstd::arithmetic::power::pow, 8);
    }
    lemma_base36_len(g, 13);
    crate::segment_infos::lemma_base36_digits(g);
    let suffix = base36_string(v.generation as int);
    crate::data_io::lemma_utf8_len_bound(suffix);
    crate::data_io::lemma_utf8_len_bound(segments_chars());
    let h = encode_index_header(segments_chars(), COMMIT_FORMAT_VERSION, v.id, suffix);
    let n = v.segments.len() as i32;
    let e6 = if v.segments.len() > 0 {
        encode_version(v.lucene_version)
    } else {
        Seq::<u8>::empty()
    };
    let l1 = h + encode_version(v.lucene_version);
    let l2 = l1 + encode_vint(v.index_created_version_major);
    let l3 = l2 + be_i64(v.version);
    let l4 = l3 + encode_varint(v.counter as nat);
    let l5 = l4 + be_i32(n);
    let l6 = l5 + e6;
    let l7 = l6 + encode_segments(v.segments);
    let s = l7 + encode_string_map(v.user_data);
    assert(s == encode_commit_body(v));
    assert(holds_at(s, 0, s)) by {
        assert(s.subrange(0, s.len() as int) =~= s);
    }
    lemma_holds_split(s, 0, l7, encode_string_map(v.user_data));
    lemma_holds_split(s, 0, l6, encode_segments(v.segments));
    lemma_holds_split(s, 0, l5, e6);
    lemma_holds_split(s, 0, l4, be_i32(n));
    lemma_holds_split(s, 0, l3, encode_varint(v.counter as nat));
    lemma_holds_split(s, 0, l2, be_i64(v.version));
    lemma_holds_split(s, 0, l1, encode_vint(v.index_created_version_major));
    lemma_holds_split(s, 0, h, encode_version(v.lucene_version));
    crate::codec_util::lemma_index_header_holds(
        s,
        segments_chars(),
        COMMIT_FORMAT_VERSION,
        v.id,
        suffix,
        COMMIT_FORMAT_VERSION,
        COMMIT_FORMAT_VERSION,
    );
    lemma_version_at(s, h.len() as int, v.lucene_version);
    lemma_vint_at(s, l1.len() as int, v.index_created_version_major);
    lemma_long_at(s, l2.len() as int, v.version);
    lemma_vlong_at(s, l3.len() as int, v.counter);
    lemma_int_at(s, l4.len() as int, n);
    if v.segments.len() > 0 {
        lemma_version_at(s, l5.len() as int, v.lucene_version);
    }
    lemma_segments_at(s, l6.len() as int, v.segments);
    lemma_string_map_at(s, l7.len() as int, v.user_data);
}

} // verus!

verus! {

// ----- the library's values and the views they are written as -----

/// A set of names read as `ss`.
pub open spec fn set_matches(m: StringMap<()>, ss: Seq<Seq<char>>) -> bool {
    m.wf() && m.map().dom() == ss.to_set()
}

pub open spec fn segment_maps_wf(sci: SegmentCommitInfo) -> bool {
    &&& sci.field_infos_files.wf()
    &&& forall|i: int| 0 <= i < sci.doc_values_update_files@.len() ==> (#[trigger] sci.doc_values_update_files@[i]).1.wf()
}

pub open spec fn id_view(id: Option<[u8; 16]>) -> Option<Seq<u8>> {
    match id {
        Some(x) => Some(x@),
        None => None,
    }
}

/// The record a segment is written as.
pub open spec fn segment_view(sci: SegmentCommitInfo) -> SegmentView {
    SegmentView {
        name: sci.metadata.name@,
        id: sci.metadata.id@,
        codec: sci.metadata.codec@,
        del_gen: sci.del_gen,
        del_count: sci.del_count,
        field_infos_gen: sci.field_infos_gen,
        doc_values_gen: sci.doc_values_gen,
        soft_del_count: sci.soft_del_count,
        sci_id: id_view(sci.sci_id),
        field_infos_files: sci.field_infos_files.names(),
        doc_values_updates: sci.doc_values_update_files@.map_values(
            |e: (i32, StringMap<()>)| (e.0, e.1.names()),
        ),
    }
}

/// A segment read from the record `v`: the same fields, with each list of
/// file names kept as a set.
pub open spec fn segment_matches(sci: SegmentCommitInfo, v: SegmentView) -> bool {
    &&& sci.metadata.name@ == v.name
    &&& sci.metadata.id@ == v.id
    &&& sci.metadata.codec@ == v.codec
    &&& sci.del_gen == v.del_gen
    &&& sci.del_count == v.del_count
    &&& sci.field_infos_gen == v.field_infos_gen
    &&& sci.doc_values_gen == v.doc_values_gen
    &&& sci.soft_del_count == v.soft_del_count
    &&& id_view(sci.sci_id) == v.sci_id
    &&& set_matches(sci.field_infos_files, v.field_infos_files)
    &&& sci.doc_values_update_files@.len() == v.doc_values_updates.len()
    &&& forall|i: int|
        0 <= i < v.doc_values_updates.len() ==> (#[trigger] sci.doc_values_update_files@[i]).0
            == v.doc_values_updates[i].0 && set_matches(sci.doc_values_update_files@[i].1, v.doc_values_updates[i].1)
}

/// The map that pairs read in order make, a later key replacing an earlier.
pub open spec fn pairs_map(ps: Seq<(Seq<char>, Seq<char>)>) -> Map<Seq<char>, Seq<char>>
    decreases ps.len(),
{
    if ps.len() == 0 {
        Map::empty()
    } else {
        pairs_map(ps.drop_last()).insert(ps.last().0, ps.last().1)
    }
}

pub open spec fn string_values(m: Map<Seq<char>, String>) -> Map<Seq<char>, Seq<char>> {
    m.map_values(|v: String| v@)
}

/// The pairs user data is written as: its entries in key order.
pub open spec fn user_data_view(m: StringMap<String>) -> Seq<(Seq<char>, Seq<char>)> {
    m.entry_seq().map_values(|e: (String, String)| (e.0@, e.1@))
}

// ----- reading -----

proof fn lemma_strings_err(s: Seq<u8>, pos: int, k: nat, n: nat)
    requires
        k <= n,
        strings_at(s, pos, k) is Err,
    ensures
        strings_at(s, pos, n) == strings_at(s, pos, k),
    decreases n - k,
{
    if k < n {
        lemma_strings_err(s, pos, k + 1, n);
    }
}

proof fn lemma_pairs_err(s: Seq<u8>, pos: int, k: nat, n: nat)
    requires
        k <= n,
        pairs_at(s, pos, k) is Err,
    ensures
        pairs_at(s, pos, n) == pairs_at(s, pos, k),
    decreases n - k,
{
    if k < n {
        lemma_pairs_err(s, pos, k + 1, n);
    }
}

proof fn lemma_dv_err(s: Seq<u8>, pos: int, k: nat, n: nat)
    requires
        k <= n,
        dv_updates_at(s, pos, k) is Err,
    ensures
        dv_updates_at(s, pos, n) == dv_updates_at(s, pos, k),
    decreases n - k,
{
    if k < n {
        lemma_dv_err(s, pos, k + 1, n);
    }
}

proof fn lemma_segments_err(s: Seq<u8>, pos: int, k: nat, n: nat)
    requires
        k <= n,
        segments_at(s, pos, k) is Err,
    ensures
        segments_at(s, pos, n) == segments_at(s, pos, k),
    decreases n - k,
{
    if k < n {
        lemma_segments_err(s, pos, k + 1, n);
    }
}

/// Positions a reader answers stay within the input.
proof fn lemma_string_at_bound(s: Seq<u8>, pos: int)
    requires
        0 <= pos <= s.len(),
    ensures
        string_at(s, pos) matches Ok((v, p)) ==> pos <= p <= s.len(),
{
    reveal(string_at);
    crate::data_io::lemma_decode_bound(rest(s, pos), 5);
}

pub(crate) fn read_string_at(bytes: &[u8], pos: usize) -> (r: Result<(String, usize), SegmentInfosError>)
    requires
        pos <= bytes@.len(),
    ensures
        match string_at(bytes@, pos as int) {
            Ok((v, p)) => (r matches Ok((x, q)) && x@ == v && q == p && pos <= q <= bytes@.len()),
            Err(e) => r == Err::<(String, usize), SegmentInfosError>(e),
        },
{
    proof {
        reveal(string_at);
        lemma_string_at_bound(bytes@, pos as int);
    }
    match read_string(bytes, pos) {
        Ok(x) => Ok(x),
        Err(e) => Err(SegmentInfosError::Codec(CodecError::DataIo(e))),
    }
}

pub(crate) fn read_vint_at(bytes: &[u8], pos: usize) -> (r: Result<(i32, usize), SegmentInfosError>)
    requires
        pos <= bytes@.len(),
    ensures
        match vint_at(bytes@, pos as int) {
            Ok((v, p)) => (r matches Ok((x, q)) && x == v && q == p && pos <= q <= bytes@.len()),
            Err(e) => r == Err::<(i32, usize), SegmentInfosError>(e),
        },
{
    proof {
        reveal(vint_at);
        assert(bytes@.len() == bytes.len());
        crate::data_io::lemma_decode_bound(rest(bytes@, pos as int), 5);
    }
    match read_vint(bytes, pos) {
        Ok(x) => Ok(x),
        Err(e) => Err(SegmentInfosError::Codec(CodecError::DataIo(e))),
    }
}

pub(crate) fn read_vlong_at(bytes: &[u8], pos: usize) -> (r: Result<(i64, usize), SegmentInfosError>)
    requires
        pos <= bytes@.len(),
    ensures
        match vlong_at(bytes@, pos as int) {
            Ok((v, p)) => (r matches Ok((x, q)) && x == v && q == p && pos <= q <= bytes@.len()),
            Err(e) => r == Err::<(i64, usize), SegmentInfosError>(e),
        },
{
    proof {
        reveal(vlong_at);
        assert(bytes@.len() == bytes.len());
        crate::data_io::lemma_decode_bound(rest(bytes@, pos as int), 9);
    }
    match read_vlong(bytes, pos) {
        Ok(x) => Ok(x),
        Err(e) => Err(SegmentInfosError::Codec(CodecError::DataIo(e))),
    }
}

pub(crate) fn read_int_at(bytes: &[u8], pos: usize) -> (r: Result<(i32, usize), SegmentInfosError>)
    requires
        pos <= bytes@.len(),
    ensures
        match int_at(bytes@, pos as int) {
            Ok((v, p)) => (r matches Ok((x, q)) && x == v && q == p && pos <= q <= bytes@.len()),
            Err(e) => r == Err::<(i32, usize), SegmentInfosError>(e),
        },
{
    proof {
        reveal(int_at);
        assert(bytes@.len() == bytes.len());
    }
    match read_be_i32(bytes, pos) {
        Ok(x) => Ok(x),
        Err(e) => Err(SegmentInfosError::Codec(CodecError::DataIo(e))),
    }
}

pub(crate) fn read_long_at(bytes: &[u8], pos: usize) -> (r: Result<(i64, usize), SegmentInfosError>)
    requires
        pos <= bytes@.len(),
    ensures
        match long_at(bytes@, pos as int) {
            Ok((v, p)) => (r matches Ok((x, q)) && x == v && q == p && pos <= q <= bytes@.len()),
            Err(e) => r == Err::<(i64, usize), SegmentInfosError>(e),
        },
{
    proof {
        reveal(long_at);
        assert(bytes@.len() == bytes.len());
    }
    match read_be_i64(bytes, pos) {
        Ok(x) => Ok(x),
        Err(e) => Err(SegmentInfosError::Codec(CodecError::DataIo(e))),
    }
}

pub(crate) fn read_id_at(bytes: &[u8], pos: usize) -> (r: Result<([u8; 16], usize), SegmentInfosError>)
    requires
        pos <= bytes@.len(),
    ensures
        match id_at(bytes@, pos as int) {
            Ok((v, p)) => (r matches Ok((x, q)) && x@ == v && q == p && pos <= q <= bytes@.len()),
            Err(e) => r == Err::<([u8; 16], usize), SegmentInfosError>(e),
        },
{
    if bytes.len() - pos < 16 {
        return Err(SegmentInfosError::Codec(CodecError::DataIo(DataIoError::UnexpectedEof)));
    }
    let mut id: [u8; 16] = [0u8; 16];
    let mut i: usize = 0;
    while i < 16
        invariant
            i <= 16,
            bytes@.len() == bytes.len(),
            pos + 16 <= bytes@.len(),
            id@.len() == 16,
            forall|k: int| 0 <= k < i ==> id@[k] == bytes@[pos + k],
        decreases 16 - i,
    {
        id[i] = bytes[pos + i];
        i += 1;
    }
    assert(id@ =~= bytes@.subrange(pos as int, pos + 16));
    Ok((id, pos + 16))
}

pub(crate) fn read_string_set_at(bytes: &[u8], pos: usize) -> (r: Result<(StringMap<()>, usize), SegmentInfosError>)
    requires
        pos <= bytes@.len(),
    ensures
        match string_set_at(bytes@, pos as int) {
            Ok((v, p)) => (r matches Ok((m, q)) && set_matches(m, v) && q == p && pos <= q <= bytes@.len()),
            Err(e) => r == Err::<(StringMap<()>, usize), SegmentInfosError>(e),
        },
{
    let (n, p0) = match read_vint_at(bytes, pos) {
        Ok(x) => x,
        Err(e) => return Err(e),
    };
    if n < 0 {
        return Err(SegmentInfosError::InvalidCount { count: n });
    }
    let ghost s = bytes@;
    let mut m: StringMap<()> = StringMap::new();
    let ghost mut read: Seq<Seq<char>> = Seq::empty();
    let mut p = p0;
    let mut i: i32 = 0;
    assert(m.map().dom() =~= read.to_set());
    while i < n
        invariant
            s == bytes@,
            0 <= i <= n,
            pos <= p0 <= p <= s.len(),
            vint_at(s, pos as int) == Ok::<(i32, int), SegmentInfosError>((n, p0 as int)),
            strings_at(s, p0 as int, i as nat) == Ok::<(Seq<Seq<char>>, int), SegmentInfosError>((read, p as int)),
            set_matches(m, read),
        decreases n - i,
    {
        let (x, q) = match read_string_at(bytes, p) {
            Ok(y) => y,
            Err(e) => {
                proof {
                    lemma_strings_err(s, p0 as int, (i + 1) as nat, n as nat);
                }
                return Err(e);
            },
        };
        m.insert(x.as_str(), ());
        proof {
            let old_read = read;
            read = read.push(x@);
            assert(m.map().dom() =~= read.to_set()) by {
                assert forall|k: Seq<char>| m.map().dom().contains(k) <==> read.to_set().contains(k) by {
                    if old_read.to_set().contains(k) {
                        let j = choose|j: int| 0 <= j < old_read.len() && old_read[j] == k;
                        assert(read[j] == k);
                    }
                    if read.to_set().contains(k) {
                        let j = choose|j: int| 0 <= j < read.len() && read[j] == k;
                        if j < old_read.len() {
                            assert(old_read[j] == k);
                            assert(old_read.to_set().contains(k));
                        }
                    }
                    if k == x@ {
                        assert(read[old_read.len() as int] == k);
                    }
                }
            }
        }
        p = q;
        i += 1;
    }
    Ok((m, p))
}

pub(crate) fn read_string_map_at(bytes: &[u8], pos: usize) -> (r: Result<(StringMap<String>, usize), SegmentInfosError>)
    requires
        pos <= bytes@.len(),
    ensures
        match string_map_at(bytes@, pos as int) {
            Ok((v, p)) => (r matches Ok((m, q)) && m.wf() && string_values(m.map()) == pairs_map(v) && q
                == p && pos <= q <= bytes@.len()),
            Err(e) => r == Err::<(StringMap<String>, usize), SegmentInfosError>(e),
        },
{
    let (n, p0) = match read_vint_at(bytes, pos) {
        Ok(x) => x,
        Err(e) => return Err(e),
    };
    if n < 0 {
        return Err(SegmentInfosError::InvalidCount { count: n });
    }
    let ghost s = bytes@;
    let mut m: StringMap<String> = StringMap::new();
    let ghost mut read: Seq<(Seq<char>, Seq<char>)> = Seq::empty();
    let mut p = p0;
    let mut i: i32 = 0;
    assert(string_values(m.map()) =~= pairs_map(read));
    while i < n
        invariant
            s == bytes@,
            0 <= i <= n,
            pos <= p0 <= p <= s.len(),
            vint_at(s, pos as int) == Ok::<(i32, int), SegmentInfosError>((n, p0 as int)),
            pairs_at(s, p0 as int, i as nat) == Ok::<(Seq<(Seq<char>, Seq<char>)>, int), SegmentInfosError>(
                (read, p as int),
            ),
            m.wf(),
            string_values(m.map()) == pairs_map(read),
        decreases n - i,
    {
        let (k, q) = match read_string_at(bytes, p) {
            Ok(y) => y,
            Err(e) => {
                proof {
                    lemma_pairs_err(s, p0 as int, (i + 1) as nat, n as nat);
                }
                return Err(e);
            },
        };
        let (v, t) = match read_string_at(bytes, q) {
            Ok(y) => y,
            Err(e) => {
                proof {
                    lemma_pairs_err(s, p0 as int, (i + 1) as nat, n as nat);
                }
                return Err(e);
            },
        };
        let ghost old_map = m.map();
        let ghost vv = v@;
        m.insert(k.as_str(), v);
        proof {
            let old_read = read;
            read = read.push((k@, vv));
            assert(read.drop_last() =~= old_read);
            assert(string_values(m.map()) =~= string_values(old_map).insert(k@, vv));
        }
        p = t;
        i += 1;
    }
    Ok((m, p))
}

pub(crate) fn read_sci_id_at(bytes: &[u8], pos: usize) -> (r: Result<(Option<[u8; 16]>, usize), SegmentInfosError>)
    requires
        pos <= bytes@.len(),
    ensures
        match sci_id_at(bytes@, pos as int) {
            Ok((v, p)) => (r matches Ok((x, q)) && id_view(x) == v && q == p && pos <= q <= bytes@.len()),
            Err(e) => r == Err::<(Option<[u8; 16]>, usize), SegmentInfosError>(e),
        },
{
    if pos >= bytes.len() {
        return Err(SegmentInfosError::Codec(CodecError::DataIo(DataIoError::UnexpectedEof)));
    }
    let marker = bytes[pos];
    if marker == 1 {
        match read_id_at(bytes, pos + 1) {
            Ok((id, q)) => Ok((Some(id), q)),
            Err(e) => Err(e),
        }
    } else if marker == 0 {
        Ok((None, pos + 1))
    } else {
        Err(SegmentInfosError::InvalidIdMarker { marker })
    }
}

pub(crate) fn read_dv_map_at(bytes: &[u8], pos: usize) -> (r: Result<(Vec<(i32, StringMap<()>)>, usize), SegmentInfosError>)
    requires
        pos <= bytes@.len(),
    ensures
        match dv_map_at(bytes@, pos as int) {
            Ok((v, p)) => (r matches Ok((x, q)) && q == p && pos <= q <= bytes@.len() && x@.len() == v.len()
                && forall|i: int|
                0 <= i < v.len() ==> (#[trigger] x@[i]).0 == v[i].0 && set_matches(x@[i].1, v[i].1)),
            Err(e) => r == Err::<(Vec<(i32, StringMap<()>)>, usize), SegmentInfosError>(e),
        },
{
    let (n, p0) = match read_int_at(bytes, pos) {
        Ok(x) => x,
        Err(e) => return Err(e),
    };
    if n < 0 {
        return Err(SegmentInfosError::InvalidCount { count: n });
    }
    let ghost s = bytes@;
    let mut out: Vec<(i32, StringMap<()>)> = Vec::new();
    let ghost mut read: Seq<(i32, Seq<Seq<char>>)> = Seq::empty();
    let mut p = p0;
    let mut i: i32 = 0;
    while i < n
        invariant
            s == bytes@,
            0 <= i <= n,
            pos <= p0 <= p <= s.len(),
            int_at(s, pos as int) == Ok::<(i32, int), SegmentInfosError>((n, p0 as int)),
            dv_updates_at(s, p0 as int, i as nat) == Ok::<(Seq<(i32, Seq<Seq<char>>)>, int), SegmentInfosError>(
                (read, p as int),
            ),
            out@.len() == read.len(),
            forall|j: int| 0 <= j < read.len() ==> (#[trigger] out@[j]).0 == read[j].0 && set_matches(out@[j].1, read[j].1),
        decreases n - i,
    {
        let (k, q) = match read_int_at(bytes, p) {
            Ok(y) => y,
            Err(e) => {
                proof {
                    lemma_dv_err(s, p0 as int, (i + 1) as nat, n as nat);
                }
                return Err(e);
            },
        };
        let (files, t) = match read_string_set_at(bytes, q) {
            Ok(y) => y,
            Err(e) => {
                proof {
                    lemma_dv_err(s, p0 as int, (i + 1) as nat, n as nat);
                }
                return Err(e);
            },
        };
        let ghost fs = string_set_at(s, q as int)->Ok_0.0;
        out.push((k, files));
        proof {
            read = read.push((k, fs));
        }
        p = t;
        i += 1;
    }
    Ok((out, p))
}

pub(crate) fn read_segment_at(bytes: &[u8], pos: usize) -> (r: Result<(SegmentCommitInfo, usize), SegmentInfosError>)
    requires
        pos <= bytes@.len(),
    ensures
        match segment_at(bytes@, pos as int) {
            Ok((v, p)) => (r matches Ok((x, q)) && segment_matches(x, v) && q == p && pos <= q <= bytes@.len()),
            Err(e) => r == Err::<(SegmentCommitInfo, usize), SegmentInfosError>(e),
        },
{
    let (name, p1) = match read_string_at(bytes, pos) {
        Ok(x) => x,
        Err(e) => return Err(e),
    };
    let (id, p2) = match read_id_at(bytes, p1) {
        Ok(x) => x,
        Err(e) => return Err(e),
    };
    let (codec, p3) = match read_string_at(bytes, p2) {
        Ok(x) => x,
        Err(e) => return Err(e),
    };
    let (del_gen, p4) = match read_long_at(bytes, p3) {
        Ok(x) => x,
        Err(e) => return Err(e),
    };
    let (del_count, p5) = match read_int_at(bytes, p4) {
        Ok(x) => x,
        Err(e) => return Err(e),
    };
    let (field_infos_gen, p6) = match read_long_at(bytes, p5) {
        Ok(x) => x,
        Err(e) => return Err(e),
    };
    let (doc_values_gen, p7) = match read_long_at(bytes, p6) {
        Ok(x) => x,
        Err(e) => return Err(e),
    };
    let (soft_del_count, p8) = match read_int_at(bytes, p7) {
        Ok(x) => x,
        Err(e) => return Err(e),
    };
    let (sci_id, p9) = match read_sci_id_at(bytes, p8) {
        Ok(x) => x,
        Err(e) => return Err(e),
    };
    let (field_infos_files, p10) = match read_string_set_at(bytes, p9) {
        Ok(x) => x,
        Err(e) => return Err(e),
    };
    let (doc_values_update_files, p11) = match read_dv_map_at(bytes, p10) {
        Ok(x) => x,
        Err(e) => return Err(e),
    };
    let sci = SegmentCommitInfo {
        metadata: SegmentMetadata { name, id, codec },
        del_gen,
        del_count,
        field_infos_gen,
        doc_values_gen,
        soft_del_count,
        sci_id,
        field_infos_files,
        doc_values_update_files,
    };
    Ok((sci, p11))
}

pub(crate) fn read_segments_at(bytes: &[u8], pos: usize, count: i32) -> (r: Result<(Vec<SegmentCommitInfo>, usize), SegmentInfosError>)
    requires
        pos <= bytes@.len(),
        count >= 0,
    ensures
        match segments_at(bytes@, pos as int, count as nat) {
            Ok((v, p)) => (r matches Ok((x, q)) && q == p && pos <= q <= bytes@.len() && x@.len() == v.len()
                && forall|i: int| 0 <= i < v.len() ==> segment_matches(#[trigger] x@[i], v[i])),
            Err(e) => r == Err::<(Vec<SegmentCommitInfo>, usize), SegmentInfosError>(e),
        },
{
    let ghost s = bytes@;
    let mut out: Vec<SegmentCommitInfo> = Vec::new();
    let ghost mut read: Seq<SegmentView> = Seq::empty();
    let mut p = pos;
    let mut i: i32 = 0;
    while i < count
        invariant
            s == bytes@,
            0 <= i <= count,
            pos <= p <= s.len(),
            segments_at(s, pos as int, i as nat) == Ok::<(Seq<SegmentView>, int), SegmentInfosError>((read, p as int)),
            out@.len() == read.len(),
            forall|j: int| 0 <= j < read.len() ==> segment_matches(#[trigger] out@[j], read[j]),
        decreases count - i,
    {
        let (x, q) = match read_segment_at(bytes, p) {
            Ok(y) => y,
            Err(e) => {
                proof {
                    lemma_segments_err(s, pos as int, (i + 1) as nat, count as nat);
                }
                return Err(e);
            },
        };
        let ghost v = segment_at(s, p as int)->Ok_0.0;
        let ghost before = out@;
        out.push(x);
        proof {
            let old_read = read;
            read = read.push(v);
            assert forall|j: int| 0 <= j < read.len() implies segment_matches(#[trigger] out@[j], read[j]) by {
                if j < read.len() - 1 {
                    assert(out@[j] == before[j]);
                    assert(read[j] == old_read[j]);
                }
            }
        }
        p = q;
        i += 1;
    }
    Ok((out, p))
}

pub(crate) fn read_version_at(bytes: &[u8], pos: usize) -> (r: Result<((i32, i32, i32), usize), SegmentInfosError>)
    requires
        pos <= bytes@.len(),
    ensures
        match version_at(bytes@, pos as int) {
            Ok((v, p)) => (r matches Ok((x, q)) && x == v && q == p && pos <= q <= bytes@.len()),
            Err(e) => r == Err::<((i32, i32, i32), usize), SegmentInfosError>(e),
        },
{
    let (a, p1) = match read_vint_at(bytes, pos) {
        Ok(x) => x,
        Err(e) => return Err(e),
    };
    let (b, p2) = match read_vint_at(bytes, p1) {
        Ok(x) => x,
        Err(e) => return Err(e),
    };
    let (c, p3) = match read_vint_at(bytes, p2) {
        Ok(x) => x,
        Err(e) => return Err(e),
    };
    Ok(((a, b, c), p3))
}

} // verus!

verus! {

// ----- writing -----

/// Whether every name of `m` fits the format (so does their count).
pub(crate) fn set_fits(m: &StringMap<()>) -> (r: bool)
    requires
        m.wf(),
    ensures
        r == strings_ok(m.names()),
{
    let keys = m.keys();
    if keys.len() > 0x7fff_ffff {
        return false;
    }
    let mut i: usize = 0;
    while i < keys.len()
        invariant
            i <= keys@.len(),
            crate::string_map::str_views(keys@) == m.names(),
            forall|k: int| 0 <= k < i ==> utf8_len(#[trigger] m.names()[k]) <= i32::MAX,
        decreases keys.len() - i,
    {
        let key = keys[i];
        assert(m.names()[i as int] == key@);
        if key.as_bytes().len() > 0x7fff_ffff {
            return false;
        }
        i += 1;
    }
    true
}

/// Writes a set of names: their count, then each name in order.
pub(crate) fn write_string_set(out: &mut Vec<u8>, m: &StringMap<()>)
    requires
        m.wf(),
        strings_ok(m.names()),
    ensures
        final(out)@ == old(out)@ + encode_string_set(m.names()),
{
    let keys = m.keys();
    let ghost names = m.names();
    write_vint(out, keys.len() as i32);
    let ghost head = out@;
    let mut i: usize = 0;
    assert(encode_strings(names.subrange(0, 0)) =~= Seq::<u8>::empty());
    while i < keys.len()
        invariant
            i <= keys@.len(),
            names == m.names(),
            crate::string_map::str_views(keys@) == names,
            strings_ok(names),
            out@ == head + encode_strings(names.subrange(0, i as int)),
        decreases keys.len() - i,
    {
        let key = keys[i];
        assert(names[i as int] == key@);
        assert(utf8_len(names[i as int]) <= i32::MAX);
        let _ = write_string(out, key);
        assert(names.subrange(0, i + 1).drop_last() =~= names.subrange(0, i as int));
        i += 1;
    }
    assert(names.subrange(0, i as int) =~= names);
    assert(out@ =~= old(out)@ + encode_string_set(m.names()));
}

/// Whether every key and value of `m` fits the format (so does their count).
pub(crate) fn pairs_fit(m: &StringMap<String>) -> (r: bool)
    requires
        m.wf(),
    ensures
        r == pairs_ok(user_data_view(*m)),
{
    let entries = m.entries();
    let ghost view = user_data_view(*m);
    if entries.len() > 0x7fff_ffff {
        return false;
    }
    let mut i: usize = 0;
    while i < entries.len()
        invariant
            i <= entries@.len(),
            entries@ == m.entry_seq(),
            view == user_data_view(*m),
            view.len() == entries@.len(),
            view.len() <= i32::MAX,
            forall|k: int| 0 <= k < i ==> #[trigger] pair_fits(view[k]),
        decreases entries.len() - i,
    {
        assert(view[i as int] == (entries@[i as int].0@, entries@[i as int].1@));
        let klen = entries[i].0.as_str().as_bytes().len();
        let vlen = entries[i].1.as_str().as_bytes().len();
        assert(klen == utf8_len(view[i as int].0) && vlen == utf8_len(view[i as int].1));
        if klen > 0x7fff_ffff || vlen > 0x7fff_ffff {
            assert(!(utf8_len(view[i as int].0) <= i32::MAX && utf8_len(view[i as int].1) <= i32::MAX));
            return false;
        }
        assert(pair_fits(view[i as int]));
        i += 1;
    }
    assert forall|k: int| 0 <= k < view.len() implies utf8_len(#[trigger] view[k].0) <= i32::MAX && utf8_len(view[k].1) <= i32::MAX by {
        assert(pair_fits(view[k]));
    }
    true
}

pub open spec fn pair_fits(p: (Seq<char>, Seq<char>)) -> bool {
    utf8_len(p.0) <= i32::MAX && utf8_len(p.1) <= i32::MAX
}

/// Writes user data: the count, then each key and value in key order.
pub(crate) fn write_string_map(out: &mut Vec<u8>, m: &StringMap<String>)
    requires
        m.wf(),
        pairs_ok(user_data_view(*m)),
    ensures
        final(out)@ == old(out)@ + encode_string_map(user_data_view(*m)),
{
    let entries = m.entries();
    let ghost view = user_data_view(*m);
    write_vint(out, entries.len() as i32);
    let ghost head = out@;
    let mut i: usize = 0;
    assert(encode_pairs(view.subrange(0, 0)) =~= Seq::<u8>::empty());
    while i < entries.len()
        invariant
            i <= entries@.len(),
            entries@ == m.entry_seq(),
            view == user_data_view(*m),
            view.len() == entries@.len(),
            pairs_ok(view),
            out@ == head + encode_pairs(view.subrange(0, i as int)),
        decreases entries.len() - i,
    {
        assert(view[i as int] == (entries@[i as int].0@, entries@[i as int].1@));
        let _ = write_string(out, entries[i].0.as_str());
        let _ = write_string(out, entries[i].1.as_str());
        assert(view.subrange(0, i + 1).drop_last() =~= view.subrange(0, i as int));
        i += 1;
    }
    assert(view.subrange(0, i as int) =~= view);
    assert(out@ =~= old(out)@ + encode_string_map(user_data_view(*m)));
}

/// Whether a segment's record fits the format.
pub(crate) fn segment_fits(sci: &SegmentCommitInfo) -> (r: bool)
    requires
        segment_maps_wf(*sci),
    ensures
        r == segment_ok(segment_view(*sci)),
{
    let v = Ghost(segment_view(*sci));
    if sci.metadata.name.as_str().as_bytes().len() > 0x7fff_ffff {
        return false;
    }
    if sci.metadata.codec.as_str().as_bytes().len() > 0x7fff_ffff {
        return false;
    }
    if !set_fits(&sci.field_infos_files) {
        return false;
    }
    let dv = &sci.doc_values_update_files;
    if dv.len() > 0x7fff_ffff {
        return false;
    }
    let mut i: usize = 0;
    while i < dv.len()
        invariant
            i <= dv@.len(),
            *dv == sci.doc_values_update_files,
            v@ == segment_view(*sci),
            segment_maps_wf(*sci),
            forall|k: int| 0 <= k < i ==> strings_ok(#[trigger] v@.doc_values_updates[k].1),
        decreases dv.len() - i,
    {
        assert(v@.doc_values_updates[i as int].1 == dv@[i as int].1.names());
        assert(dv@[i as int].1.wf());
        if !set_fits(&dv[i].1) {
            return false;
        }
        i += 1;
    }
    true
}

/// Writes a segment's record.
pub(crate) fn write_segment(out: &mut Vec<u8>, sci: &SegmentCommitInfo)
    requires
        segment_maps_wf(*sci),
        segment_ok(segment_view(*sci)),
    ensures
        final(out)@ == old(out)@ + encode_segment(segment_view(*sci)),
{
    let ghost v = segment_view(*sci);
    let _ = write_string(out, sci.metadata.name.as_str());
    write_bytes(out, &sci.metadata.id);
    let _ = write_string(out, sci.metadata.codec.as_str());
    write_be_i64(out, sci.del_gen);
    write_be_i32(out, sci.del_count);
    write_be_i64(out, sci.field_infos_gen);
    write_be_i64(out, sci.doc_values_gen);
    write_be_i32(out, sci.soft_del_count);
    match &sci.sci_id {
        Some(id) => {
            out.push(1u8);
            write_bytes(out, id);
        },
        None => {
            out.push(0u8);
        },
    }
    let ghost before_set = out@;
    write_string_set(out, &sci.field_infos_files);
    let dv = &sci.doc_values_update_files;
    write_be_i32(out, dv.len() as i32);
    let ghost head = out@;
    let ghost ds = v.doc_values_updates;
    let mut i: usize = 0;
    assert(encode_dv_updates(ds.subrange(0, 0)) =~= Seq::<u8>::empty());
    while i < dv.len()
        invariant
            i <= dv@.len(),
            *dv == sci.doc_values_update_files,
            v == segment_view(*sci),
            ds == v.doc_values_updates,
            segment_maps_wf(*sci),
            segment_ok(v),
            out@ == head + encode_dv_updates(ds.subrange(0, i as int)),
        decreases dv.len() - i,
    {
        assert(ds[i as int] == (dv@[i as int].0, dv@[i as int].1.names()));
        assert(dv@[i as int].1.wf());
        assert(strings_ok(ds[i as int].1));
        write_be_i32(out, dv[i].0);
        write_string_set(out, &dv[i].1);
        assert(ds.subrange(0, i + 1).drop_last() =~= ds.subrange(0, i as int));
        i += 1;
    }
    assert(ds.subrange(0, i as int) =~= ds);
    assert(out@ =~= old(out)@ + encode_segment(v));
}

} // verus!

verus! {

/// A segment read from a record has ordered name sets.
pub proof fn lemma_matches_wf(sci: SegmentCommitInfo, v: SegmentView)
    requires
        segment_matches(sci, v),
    ensures
        segment_maps_wf(sci),
{
    assert forall|i: int| 0 <= i < sci.doc_values_update_files@.len() implies (#[trigger] sci.doc_values_update_files@[i]).1.wf() by {
        assert(set_matches(sci.doc_values_update_files@[i].1, v.doc_values_updates[i].1));
    }
}

} // verus!

verus! {

proof fn lemma_pairs_map_distinct(ps: Seq<(Seq<char>, Seq<char>)>)
    requires
        forall|i: int, j: int| 0 <= i < j < ps.len() ==> #[trigger] ps[i].0 != #[trigger] ps[j].0,
    ensures
        forall|i: int|
            0 <= i < ps.len() ==> pairs_map(ps).contains_key(#[trigger] ps[i].0) && pairs_map(ps)[ps[i].0]
                == ps[i].1,
        forall|k: Seq<char>| #[trigger] pairs_map(ps).contains_key(k) ==> exists|i: int| 0 <= i < ps.len() && ps[i].0 == k,
    decreases ps.len(),
{
    if ps.len() > 0 {
        let init = ps.drop_last();
        assert forall|i: int, j: int| 0 <= i < j < init.len() implies #[trigger] init[i].0 != #[trigger] init[j].0 by {
            assert(ps[i].0 != ps[j].0);
        }
        lemma_pairs_map_distinct(init);
        let last = ps.last();
        assert forall|i: int| 0 <= i < ps.len() implies pairs_map(ps).contains_key(#[trigger] ps[i].0)
            && pairs_map(ps)[ps[i].0] == ps[i].1 by {
            if i < ps.len() - 1 {
                assert(init[i] == ps[i]);
                assert(ps[i].0 != ps[ps.len() - 1].0);
            }
        }
        assert forall|k: Seq<char>| #[trigger] pairs_map(ps).contains_key(k) implies exists|i: int| 0 <= i < ps.len() && ps[i].0 == k by {
            if k != last.0 {
                assert(pairs_map(init).contains_key(k));
                let i = choose|i: int| 0 <= i < init.len() && init[i].0 == k;
                assert(ps[i] == init[i]);
            } else {
                assert(ps[ps.len() - 1].0 == k);
            }
        }
    }
}

/// User data written and read back is the map it was: the pairs a map is
/// written as make that map again.
pub proof fn law_user_data_round_trip(m: StringMap<String>)
    requires
        m.wf(),
    ensures
        pairs_map(user_data_view(m)) == string_values(m.map()),
{
    m.lemma_entries();
    let ps = user_data_view(m);
    let names = m.names();
    assert forall|i: int| 0 <= i < ps.len() implies #[trigger] ps[i].0 == names[i] by {
        assert(m.entry_seq()[i].0@ == names[i]);
    }
    assert forall|i: int, j: int| 0 <= i < j < ps.len() implies #[trigger] ps[i].0 != #[trigger] ps[j].0 by {
        assert(ps[i].0 == names[i]);
        assert(ps[j].0 == names[j]);
        assert(crate::text::lex_lt(names[i], names[j]));
        crate::text::lemma_lex_irreflexive(names[i]);
    }
    lemma_pairs_map_distinct(ps);
    let a = pairs_map(ps);
    let b = string_values(m.map());
    assert forall|k: Seq<char>| a.contains_key(k) <==> b.contains_key(k) by {
        if a.contains_key(k) {
            let i = choose|i: int| 0 <= i < ps.len() && ps[i].0 == k;
            assert(ps[i].0 == names[i]);
            assert(m.map().contains_key(names[i]));
        }
        if b.contains_key(k) {
            assert(m.names().to_set().contains(k));
            let i = choose|i: int| 0 <= i < names.len() && names[i] == k;
            assert(ps[i].0 == names[i]);
        }
    }
    assert forall|k: Seq<char>| #[trigger] a.contains_key(k) implies a[k] == b[k] by {
        let i = choose|i: int| 0 <= i < ps.len() && ps[i].0 == k;
        assert(ps[i].0 == names[i]);
        assert(m.map()[names[i]] == m.entry_seq()[i].1);
        assert(ps[i].1 == m.entry_seq()[i].1@);
    }
    assert(a =~= b);
}

/// A set of names written and read back holds the same names.
pub proof fn law_name_set_round_trip(m: StringMap<()>)
    requires
        m.wf(),
    ensures
        m.names().to_set() == m.map().dom(),
{
    m.lemma_entries();
}

/// A commit file written with its footer passes the footer check and its
/// body reads back as the commit it was written from.
pub proof fn law_commit_file_round_trip(v: CommitView)
    requires
        commit_ok(v),
    ensures
        crate::codec_util::footer_check(crate::codec_util::with_footer(encode_commit_body(v)))
            == Ok::<(), CodecError>(()),
        parse_commit(
            crate::codec_util::with_footer(encode_commit_body(v)).subrange(
                0,
                crate::codec_util::with_footer(encode_commit_body(v)).len() - 16,
            ),
            v.generation,
        ) == Ok::<CommitView, SegmentInfosError>(v),
{
    crate::codec_util::law_footer_round_trip(encode_commit_body(v));
    law_commit_round_trip(v);
}

} // verus!
