//! Binary codec for [`FieldInfos`]: the magic `SFI0`, the field count as a
//! vint, then per field its name (string), number (vint) and four option
//! bytes.

use vstd::prelude::*;

use crate::data_io::{
    decode_string, decode_vint, encode_string, encode_vint, read_bytes, read_byte, read_string,
    read_vint, rest, write_bytes, write_string, write_vint, DataIoError,
};
use crate::field_infos::{
    clash_error, first_clash, no_clash, views, DocValuesType, FieldInfo, FieldInfoView, FieldInfos,
    FieldInfosError, IndexOptions,
};

verus! {

#[allow(inconsistent_fields)]
#[derive(Debug, Clone, PartialEq, Eq)]
pub enum FieldInfosCodecError {
    InvalidMagic { actual: [u8; 4] },
    FieldCountOverflow { count: usize },
    NegativeFieldCount { count: i32 },
    FieldNumberOverflow { number: u32 },
    NegativeFieldNumber { number: i32 },
    UnknownIndexOptions { value: u8 },
    UnknownDocValuesType { value: u8 },
    InvalidBoolean { field: &'static str, value: u8 },
    DataIo(DataIoError),
    FieldInfos(FieldInfosError),
}

pub open spec fn magic() -> Seq<u8> {
    seq![0x53u8, 0x46u8, 0x49u8, 0x30u8]
}

pub open spec fn index_options_byte(o: IndexOptions) -> u8 {
    match o {
        IndexOptions::Absent => 0,
        IndexOptions::Docs => 1,
        IndexOptions::DocsAndFreqs => 2,
        IndexOptions::DocsAndFreqsAndPositions => 3,
        IndexOptions::DocsAndFreqsAndPositionsAndOffsets => 4,
    }
}

pub open spec fn index_options_of(b: u8) -> Option<IndexOptions> {
    if b == 0 {
        Some(IndexOptions::Absent)
    } else if b == 1 {
        Some(IndexOptions::Docs)
    } else if b == 2 {
        Some(IndexOptions::DocsAndFreqs)
    } else if b == 3 {
        Some(IndexOptions::DocsAndFreqsAndPositions)
    } else if b == 4 {
        Some(IndexOptions::DocsAndFreqsAndPositionsAndOffsets)
    } else {
        None
    }
}

pub open spec fn doc_values_byte(d: DocValuesType) -> u8 {
    match d {
        DocValuesType::Absent => 0,
        DocValuesType::Numeric => 1,
        DocValuesType::Binary => 2,
        DocValuesType::Sorted => 3,
        DocValuesType::SortedNumeric => 4,
        DocValuesType::SortedSet => 5,
    }
}

pub open spec fn doc_values_of(b: u8) -> Option<DocValuesType> {
    if b == 0 {
        Some(DocValuesType::Absent)
    } else if b == 1 {
        Some(DocValuesType::Numeric)
    } else if b == 2 {
        Some(DocValuesType::Binary)
    } else if b == 3 {
        Some(DocValuesType::Sorted)
    } else if b == 4 {
        Some(DocValuesType::SortedNumeric)
    } else if b == 5 {
        Some(DocValuesType::SortedSet)
    } else {
        None
    }
}

pub open spec fn bool_byte(v: bool) -> u8 {
    if v {
        1
    } else {
        0
    }
}

pub open spec fn bool_of(b: u8) -> Option<bool> {
    if b == 0 {
        Some(false)
    } else if b == 1 {
        Some(true)
    } else {
        None
    }
}

/// The encoding of one field.
pub open spec fn encode_field(f: FieldInfoView) -> Seq<u8> {
    encode_string(f.name) + encode_vint(f.number as i32) + seq![
        index_options_byte(f.index_options),
        doc_values_byte(f.doc_values_type),
        bool_byte(f.omit_norms),
        bool_byte(f.store_payloads),
    ]
}

pub open spec fn utf8_len(s: Seq<char>) -> nat {
    vstd::utf8::encode_utf8(s).len()
}

/// Encoding of the fields in order, or the error met at the first field that
/// cannot be written.
pub open spec fn encode_fields(fs: Seq<FieldInfoView>) -> Result<Seq<u8>, FieldInfosCodecError>
    decreases fs.len(),
{
    if fs.len() == 0 {
        Ok(Seq::empty())
    } else {
        match encode_fields(fs.drop_last()) {
            Err(e) => Err(e),
            Ok(prefix) => {
                let f = fs.last();
                if utf8_len(f.name) > i32::MAX {
                    Err(FieldInfosCodecError::DataIo(DataIoError::LengthOverflow { size: utf8_len(f.name) as usize }))
                } else if f.number > i32::MAX {
                    Err(FieldInfosCodecError::FieldNumberOverflow { number: f.number })
                } else {
                    Ok(prefix + encode_field(f))
                }
            },
        }
    }
}

/// What `encode_field_infos` produces for fields with these contents.
pub open spec fn encode_result(fs: Seq<FieldInfoView>) -> Result<Seq<u8>, FieldInfosCodecError> {
    if fs.len() > i32::MAX {
        Err(FieldInfosCodecError::FieldCountOverflow { count: fs.len() as usize })
    } else {
        match encode_fields(fs) {
            Err(e) => Err(e),
            Ok(body) => Ok(magic() + encode_vint(fs.len() as i32) + body),
        }
    }
}

/// Parses one field from the front of `s`: the field and the bytes it took.
pub open spec fn parse_field(s: Seq<u8>) -> Result<(FieldInfoView, nat), FieldInfosCodecError> {
    match decode_string(s) {
        Err(e) => Err(FieldInfosCodecError::DataIo(e)),
        Ok((name, n1)) => match decode_vint(s.skip(n1 as int)) {
            Err(e) => Err(FieldInfosCodecError::DataIo(e)),
            Ok((num, n2)) => {
                let p = (n1 + n2) as int;
                if num < 0 {
                    Err(FieldInfosCodecError::NegativeFieldNumber { number: num })
                } else if p >= s.len() {
                    Err(FieldInfosCodecError::DataIo(DataIoError::UnexpectedEof))
                } else if index_options_of(s[p]) is None {
                    Err(FieldInfosCodecError::UnknownIndexOptions { value: s[p] })
                } else if p + 1 >= s.len() {
                    Err(FieldInfosCodecError::DataIo(DataIoError::UnexpectedEof))
                } else if doc_values_of(s[p + 1]) is None {
                    Err(FieldInfosCodecError::UnknownDocValuesType { value: s[p + 1] })
                } else if p + 2 >= s.len() {
                    Err(FieldInfosCodecError::DataIo(DataIoError::UnexpectedEof))
                } else if bool_of(s[p + 2]) is None {
                    Err(FieldInfosCodecError::InvalidBoolean { field: "omit_norms", value: s[p + 2] })
                } else if p + 3 >= s.len() {
                    Err(FieldInfosCodecError::DataIo(DataIoError::UnexpectedEof))
                } else if bool_of(s[p + 3]) is None {
                    Err(FieldInfosCodecError::InvalidBoolean { field: "store_payloads", value: s[p + 3] })
                } else {
                    Ok(
                        (
                            FieldInfoView {
                                name,
                                number: num as u32,
                                index_options: index_options_of(s[p])->0,
                                doc_values_type: doc_values_of(s[p + 1])->0,
                                omit_norms: bool_of(s[p + 2])->0,
                                store_payloads: bool_of(s[p + 3])->0,
                            },
                            (p + 4) as nat,
                        ),
                    )
                }
            },
        },
    }
}

/// Parses `count` fields in order from the front of `s`.
pub open spec fn parse_fields(s: Seq<u8>, count: nat) -> Result<(Seq<FieldInfoView>, nat), FieldInfosCodecError>
    decreases count,
{
    if count == 0 {
        Ok((Seq::empty(), 0))
    } else {
        match parse_fields(s, (count - 1) as nat) {
            Err(e) => Err(e),
            Ok((fs, n)) => match parse_field(s.skip(n as int)) {
                Err(e) => Err(e),
                Ok((f, m)) => Ok((fs.push(f), n + m)),
            },
        }
    }
}

/// Parses what follows the magic: the count and the fields.
pub open spec fn parse_body(s: Seq<u8>) -> Result<Seq<FieldInfoView>, FieldInfosCodecError> {
    match decode_vint(s) {
        Err(e) => Err(FieldInfosCodecError::DataIo(e)),
        Ok((count, n)) => if count < 0 {
            Err(FieldInfosCodecError::NegativeFieldCount { count })
        } else {
            match parse_fields(s.skip(n as int), count as nat) {
                Err(e) => Err(e),
                Ok((fs, m)) => Ok(fs),
            }
        },
    }
}

fn index_options_to_byte(o: IndexOptions) -> (r: u8)
    ensures
        r == index_options_byte(o),
{
    match o {
        IndexOptions::Absent => 0,
        IndexOptions::Docs => 1,
        IndexOptions::DocsAndFreqs => 2,
        IndexOptions::DocsAndFreqsAndPositions => 3,
        IndexOptions::DocsAndFreqsAndPositionsAndOffsets => 4,
    }
}

fn index_options_from_byte(b: u8) -> (r: Option<IndexOptions>)
    ensures
        r == index_options_of(b),
{
    match b {
        0 => Some(IndexOptions::Absent),
        1 => Some(IndexOptions::Docs),
        2 => Some(IndexOptions::DocsAndFreqs),
        3 => Some(IndexOptions::DocsAndFreqsAndPositions),
        4 => Some(IndexOptions::DocsAndFreqsAndPositionsAndOffsets),
        _ => None,
    }
}

fn doc_values_type_to_byte(d: DocValuesType) -> (r: u8)
    ensures
        r == doc_values_byte(d),
{
    match d {
        DocValuesType::Absent => 0,
        DocValuesType::Numeric => 1,
        DocValuesType::Binary => 2,
        DocValuesType::Sorted => 3,
        DocValuesType::SortedNumeric => 4,
        DocValuesType::SortedSet => 5,
    }
}

fn doc_values_type_from_byte(b: u8) -> (r: Option<DocValuesType>)
    ensures
        r == doc_values_of(b),
{
    match b {
        0 => Some(DocValuesType::Absent),
        1 => Some(DocValuesType::Numeric),
        2 => Some(DocValuesType::Binary),
        3 => Some(DocValuesType::Sorted),
        4 => Some(DocValuesType::SortedNumeric),
        5 => Some(DocValuesType::SortedSet),
        _ => None,
    }
}

fn bool_to_byte(v: bool) -> (r: u8)
    ensures
        r == bool_byte(v),
{
    if v {
        1
    } else {
        0
    }
}

fn bool_from_byte(b: u8) -> (r: Option<bool>)
    ensures
        r == bool_of(b),
{
    match b {
        0 => Some(false),
        1 => Some(true),
        _ => None,
    }
}

proof fn lemma_encode_fields_step(fs: Seq<FieldInfoView>, i: int)
    requires
        0 <= i < fs.len(),
    ensures
        encode_fields(fs.subrange(0, i + 1)) == match encode_fields(fs.subrange(0, i)) {
            Err(e) => Err(e),
            Ok(prefix) => {
                let f = fs[i];
                if utf8_len(f.name) > i32::MAX {
                    Err(FieldInfosCodecError::DataIo(DataIoError::LengthOverflow { size: utf8_len(f.name) as usize }))
                } else if f.number > i32::MAX {
                    Err(FieldInfosCodecError::FieldNumberOverflow { number: f.number })
                } else {
                    Ok(prefix + encode_field(f))
                }
            },
        },
{
    let next = fs.subrange(0, i + 1);
    assert(next.drop_last() =~= fs.subrange(0, i));
    assert(next.last() == fs[i]);
}

#[verifier::rlimit(60)]
pub fn encode_field_infos(field_infos: &FieldInfos) -> (r: Result<Vec<u8>, FieldInfosCodecError>)
    ensures
        match encode_result(field_infos@) {
            Ok(bytes) => (r matches Ok(v) && v@ == bytes),
            Err(e) => r == Err::<Vec<u8>, FieldInfosCodecError>(e),
        },
{
    let fields = field_infos.iter();
    let ghost fs = field_infos@;
    let count = fields.len();
    if count > 0x7fff_ffff {
        return Err(FieldInfosCodecError::FieldCountOverflow { count });
    }
    let mut out: Vec<u8> = Vec::new();
    write_bytes(&mut out, &[0x53u8, 0x46u8, 0x49u8, 0x30u8]);
    write_vint(&mut out, count as i32);
    let ghost head = out@;
    assert(head =~= magic() + encode_vint(fs.len() as i32));
    assert(fs.subrange(0, 0) =~= Seq::<FieldInfoView>::empty());
    let mut i: usize = 0;
    while i < count
        invariant
            i <= count,
            count == fs.len(),
            fs == field_infos@,
            count <= i32::MAX,
            views(fields@) == fs,
            head == magic() + encode_vint(fs.len() as i32),
            encode_fields(fs.subrange(0, i as int)) is Ok,
            out@ == head + encode_fields(fs.subrange(0, i as int))->Ok_0,
        decreases count - i,
    {
        let f = &fields[i];
        assert(fs[i as int] == f@);
        proof {
            lemma_encode_fields_step(fs, i as int);
        }
        let ghost before = out@;
        match write_string(&mut out, f.name()) {
            Ok(()) => {},
            Err(e) => {
                proof {
                    assert(utf8_len(f@.name) > i32::MAX);
                    assert(encode_fields(fs.subrange(0, i + 1)) == Err::<Seq<u8>, FieldInfosCodecError>(FieldInfosCodecError::DataIo(e)));
                    lemma_encode_fields_error_extends(fs, (i + 1) as nat);
                }
                return Err(FieldInfosCodecError::DataIo(e));
            },
        }
        let number = f.number();
        if number > 0x7fff_ffff {
            proof {
                lemma_encode_fields_error_extends(fs, (i + 1) as nat);
            }
            return Err(FieldInfosCodecError::FieldNumberOverflow { number });
        }
        write_vint(&mut out, number as i32);
        out.push(index_options_to_byte(f.index_options()));
        out.push(doc_values_type_to_byte(f.doc_values_type()));
        out.push(bool_to_byte(f.omit_norms()));
        out.push(bool_to_byte(f.store_payloads()));
        proof {
            assert(out@ =~= before + encode_field(f@));
        }
        i += 1;
    }
    assert(fs.subrange(0, count as int) =~= fs);
    Ok(out)
}

/// Once a prefix of the fields cannot be written, neither can the fields.
proof fn lemma_encode_fields_error_extends(fs: Seq<FieldInfoView>, k: nat)
    requires
        k <= fs.len(),
        encode_fields(fs.subrange(0, k as int)) is Err,
    ensures
        encode_fields(fs) == encode_fields(fs.subrange(0, k as int)),
    decreases fs.len() - k,
{
    if k < fs.len() {
        let next = fs.subrange(0, (k + 1) as int);
        assert(next.drop_last() =~= fs.subrange(0, k as int));
        lemma_encode_fields_error_extends(fs, k + 1);
    } else {
        assert(fs.subrange(0, k as int) =~= fs);
    }
}

/// Reads one field at `pos`.
#[verifier::rlimit(30)]
fn read_field(bytes: &[u8], pos: usize) -> (r: Result<(FieldInfo, usize), FieldInfosCodecError>)
    requires
        pos <= bytes@.len(),
    ensures
        match parse_field(rest(bytes@, pos as int)) {
            Ok((f, n)) => (r matches Ok((v, p)) && v@ == f && p == pos + n),
            Err(e) => r == Err::<(FieldInfo, usize), FieldInfosCodecError>(e),
        },
{
    let ghost s = rest(bytes@, pos as int);
    proof {
        assert(bytes@.len() == bytes.len());
    }
    let (name, p1) = match read_string(bytes, pos) {
        Ok(x) => x,
        Err(e) => return Err(FieldInfosCodecError::DataIo(e)),
    };
    let ghost n1 = (p1 - pos) as nat;
    assert(decode_string(s) == Ok::<(Seq<char>, nat), DataIoError>((name@, n1)));
    assert(rest(bytes@, p1 as int) =~= s.skip(n1 as int));
    proof {
        crate::data_io::lemma_decode_bound(rest(bytes@, p1 as int), 5);
    }
    let (number, p2) = match read_vint(bytes, p1) {
        Ok(x) => x,
        Err(e) => return Err(FieldInfosCodecError::DataIo(e)),
    };
    let ghost n2 = (p2 - p1) as nat;
    assert(decode_vint(s.skip(n1 as int)) == Ok::<(i32, nat), DataIoError>((number, n2)));
    if number < 0 {
        return Err(FieldInfosCodecError::NegativeFieldNumber { number });
    }
    let ghost p = (n1 + n2) as int;
    assert(p == p2 - pos);
    assert(s.len() == bytes@.len() - pos);
    let (b0, p3) = match read_byte(bytes, p2) {
        Ok(x) => x,
        Err(e) => return Err(FieldInfosCodecError::DataIo(e)),
    };
    assert(s[p] == b0);
    let index_options = match index_options_from_byte(b0) {
        Some(o) => o,
        None => return Err(FieldInfosCodecError::UnknownIndexOptions { value: b0 }),
    };
    let (b1, p4) = match read_byte(bytes, p3) {
        Ok(x) => x,
        Err(e) => return Err(FieldInfosCodecError::DataIo(e)),
    };
    assert(s[p + 1] == b1);
    let doc_values_type = match doc_values_type_from_byte(b1) {
        Some(d) => d,
        None => return Err(FieldInfosCodecError::UnknownDocValuesType { value: b1 }),
    };
    let (b2, p5) = match read_byte(bytes, p4) {
        Ok(x) => x,
        Err(e) => return Err(FieldInfosCodecError::DataIo(e)),
    };
    assert(s[p + 2] == b2);
    let omit_norms = match bool_from_byte(b2) {
        Some(v) => v,
        None => return Err(FieldInfosCodecError::InvalidBoolean { field: "omit_norms", value: b2 }),
    };
    let (b3, p6) = match read_byte(bytes, p5) {
        Ok(x) => x,
        Err(e) => return Err(FieldInfosCodecError::DataIo(e)),
    };
    assert(s[p + 3] == b3);
    let store_payloads = match bool_from_byte(b3) {
        Some(v) => v,
        None => return Err(FieldInfosCodecError::InvalidBoolean { field: "store_payloads", value: b3 }),
    };
    let field = FieldInfo::new(
        name.as_str(),
        number as u32,
        index_options,
        doc_values_type,
        omit_norms,
        store_payloads,
    );
    Ok((field, p6))
}

/// What decoding `bytes` answers, with the field infos taken by their view:
/// a short input or a wrong magic is refused, then the body is parsed and the
/// fields are checked as `FieldInfos::new` checks them.
pub open spec fn decode_outcome(bytes: Seq<u8>, r: Result<Seq<FieldInfoView>, FieldInfosCodecError>) -> bool {
    if bytes.len() < 4 {
        r == Err::<Seq<FieldInfoView>, FieldInfosCodecError>(
            FieldInfosCodecError::DataIo(DataIoError::UnexpectedEof),
        )
    } else if bytes.subrange(0, 4) != magic() {
        r matches Err(FieldInfosCodecError::InvalidMagic { actual }) && actual@ == bytes.subrange(0, 4)
    } else {
        match parse_body(bytes.skip(4)) {
            Err(e) => r == Err::<Seq<FieldInfoView>, FieldInfosCodecError>(e),
            Ok(fs) => if no_clash(fs) {
                r == Ok::<Seq<FieldInfoView>, FieldInfosCodecError>(fs)
            } else {
                (r matches Err(FieldInfosCodecError::FieldInfos(fe)) && exists|p: int|
                    first_clash(fs, p) && #[trigger] clash_error(fs, p, fe))
            },
        }
    }
}

/// A decoding result with the field infos taken by their view.
pub open spec fn infos_result<E>(r: Result<FieldInfos, E>) -> Result<Seq<FieldInfoView>, E> {
    match r {
        Ok(infos) => Ok(infos@),
        Err(e) => Err(e),
    }
}

pub fn decode_field_infos(bytes: &[u8]) -> (r: Result<FieldInfos, FieldInfosCodecError>)
    ensures
        decode_outcome(bytes@, infos_result(r)),
{
    let (m, pos) = match read_bytes(bytes, 0, 4) {
        Ok(x) => x,
        Err(e) => return Err(FieldInfosCodecError::DataIo(e)),
    };
    let actual: [u8; 4] = [m[0], m[1], m[2], m[3]];
    if !(m[0] == 0x53 && m[1] == 0x46 && m[2] == 0x49 && m[3] == 0x30) {
        assert(actual@ =~= bytes@.subrange(0, 4));
        assert(bytes@.subrange(0, 4) != magic()) by {
            if bytes@.subrange(0, 4) == magic() {
                assert(m@ =~= magic());
            }
        }
        return Err(FieldInfosCodecError::InvalidMagic { actual });
    }
    assert(bytes@.subrange(0, 4) =~= magic());
    let ghost body = bytes@.skip(4);
    assert(rest(bytes@, 4) =~= body);
    let (count, p0) = match read_vint(bytes, 4) {
        Ok(x) => x,
        Err(e) => return Err(FieldInfosCodecError::DataIo(e)),
    };
    if count < 0 {
        return Err(FieldInfosCodecError::NegativeFieldCount { count });
    }
    let ghost n0 = (p0 - 4) as int;
    let ghost fields_bytes = body.skip(n0);
    proof {
        assert(bytes@.len() == bytes.len());
        crate::data_io::lemma_decode_bound(body, 5);
        assert(decode_vint(body) == Ok::<(i32, nat), DataIoError>((count, n0 as nat)));
        assert(fields_bytes =~= rest(bytes@, p0 as int));
        assert(parse_fields(fields_bytes, 0) == Ok::<(Seq<FieldInfoView>, nat), FieldInfosCodecError>((Seq::empty(), 0nat)));
    }
    let mut fields: Vec<FieldInfo> = Vec::new();
    assert(views(fields@) =~= Seq::<FieldInfoView>::empty());
    let mut pos = p0;
    let mut i: i32 = 0;
    while i < count
        invariant
            0 <= i <= count,
            bytes@.len() >= 4,
            bytes@.subrange(0, 4) == magic(),
            body == bytes@.skip(4),
            decode_vint(body) == Ok::<(i32, nat), DataIoError>((count, n0 as nat)),
            fields_bytes == body.skip(n0),
            n0 >= 0,
            p0 <= pos <= bytes@.len(),
            fields_bytes == rest(bytes@, p0 as int),
            parse_fields(fields_bytes, i as nat) == Ok::<(Seq<FieldInfoView>, nat), FieldInfosCodecError>(
                (views(fields@), (pos - p0) as nat),
            ),
        decreases count - i,
    {
        assert(rest(bytes@, pos as int) =~= fields_bytes.skip(pos - p0));
        let (field, next) = match read_field(bytes, pos) {
            Ok(x) => x,
            Err(e) => {
                proof {
                    assert(parse_field(fields_bytes.skip(pos - p0)) == Err::<(FieldInfoView, nat), FieldInfosCodecError>(e));
                    assert(parse_fields(fields_bytes, (i + 1) as nat) == Err::<(Seq<FieldInfoView>, nat), FieldInfosCodecError>(e));
                    lemma_parse_fields_error_extends(fields_bytes, (i + 1) as nat, count as nat);
                    assert(parse_body(body) == Err::<Seq<FieldInfoView>, FieldInfosCodecError>(e));
                }
                return Err(e);
            },
        };
        let ghost old_views = views(fields@);
        fields.push(field);
        assert(views(fields@) =~= old_views.push(field@));
        pos = next;
        i += 1;
    }
    match FieldInfos::new(fields) {
        Ok(infos) => Ok(infos),
        Err(e) => Err(FieldInfosCodecError::FieldInfos(e)),
    }
}

proof fn lemma_parse_fields_error_extends(s: Seq<u8>, k: nat, count: nat)
    requires
        k <= count,
        parse_fields(s, k) is Err,
    ensures
        parse_fields(s, count) == parse_fields(s, k),
    decreases count - k,
{
    if k < count {
        lemma_parse_fields_error_extends(s, k + 1, count);
    }
}

proof fn lemma_parse_field_round_trip(f: FieldInfoView, tail: Seq<u8>)
    requires
        utf8_len(f.name) <= i32::MAX,
        f.number <= i32::MAX,
    ensures
        parse_field(encode_field(f) + tail) == Ok::<(FieldInfoView, nat), FieldInfosCodecError>((f, encode_field(f).len())),
{
    let name_bytes = encode_string(f.name);
    let num = f.number as i32;
    let vint = encode_vint(num);
    let opts = seq![
        index_options_byte(f.index_options),
        doc_values_byte(f.doc_values_type),
        bool_byte(f.omit_norms),
        bool_byte(f.store_payloads),
    ];
    let s = encode_field(f) + tail;
    assert(s =~= name_bytes + (vint + (opts + tail)));
    crate::data_io::lemma_string_round_trip(f.name, vint + (opts + tail));
    let n1 = name_bytes.len();
    assert(s.skip(n1 as int) =~= vint + (opts + tail));
    crate::data_io::lemma_vint_round_trip(num, opts + tail);
    let p = (n1 + vint.len()) as int;
    assert(s[p] == opts[0]);
    assert(s[p + 1] == opts[1]);
    assert(s[p + 2] == opts[2]);
    assert(s[p + 3] == opts[3]);
    assert(num as u32 == f.number);
    match f.index_options {
        IndexOptions::Absent => {},
        IndexOptions::Docs => {},
        IndexOptions::DocsAndFreqs => {},
        IndexOptions::DocsAndFreqsAndPositions => {},
        IndexOptions::DocsAndFreqsAndPositionsAndOffsets => {},
    }
    match f.doc_values_type {
        DocValuesType::Absent => {},
        DocValuesType::Numeric => {},
        DocValuesType::Binary => {},
        DocValuesType::Sorted => {},
        DocValuesType::SortedNumeric => {},
        DocValuesType::SortedSet => {},
    }
}

proof fn lemma_parse_fields_round_trip(fs: Seq<FieldInfoView>, tail: Seq<u8>)
    requires
        encode_fields(fs) is Ok,
    ensures
        parse_fields(encode_fields(fs)->Ok_0 + tail, fs.len()) == Ok::<(Seq<FieldInfoView>, nat), FieldInfosCodecError>(
            (fs, encode_fields(fs)->Ok_0.len()),
        ),
    decreases fs.len(),
{
    if fs.len() == 0 {
        assert(fs =~= Seq::<FieldInfoView>::empty());
    } else {
        let init = fs.drop_last();
        let f = fs.last();
        let b0 = encode_fields(init)->Ok_0;
        let ef = encode_field(f);
        lemma_parse_fields_round_trip(init, ef + tail);
        let s = encode_fields(fs)->Ok_0 + tail;
        assert(s =~= b0 + (ef + tail));
        assert(s.skip(b0.len() as int) =~= ef + tail);
        lemma_parse_field_round_trip(f, tail);
        assert(init.push(f) =~= fs);
    }
}

/// Decoding what `encode_field_infos` wrote gives back the same fields: the
/// bytes start with the magic and the rest parses to exactly the fields,
/// which have no clash, so `decode_field_infos` returns them.
pub proof fn law_field_infos_round_trip(fs: Seq<FieldInfoView>)
    requires
        crate::field_infos::fields_unique(fs),
        encode_result(fs) is Ok,
    ensures
        encode_result(fs)->Ok_0.len() >= 4,
        encode_result(fs)->Ok_0.subrange(0, 4) == magic(),
        parse_body(encode_result(fs)->Ok_0.skip(4)) == Ok::<Seq<FieldInfoView>, FieldInfosCodecError>(fs),
        no_clash(fs),
{
    let b = encode_fields(fs)->Ok_0;
    let v = encode_vint(fs.len() as i32);
    let bytes = encode_result(fs)->Ok_0;
    assert(bytes =~= magic() + (v + b));
    assert(bytes.subrange(0, 4) =~= magic());
    assert(bytes.skip(4) =~= v + b);
    crate::data_io::lemma_vint_round_trip(fs.len() as i32, b);
    assert((v + b).skip(v.len() as int) =~= b + Seq::<u8>::empty());
    lemma_parse_fields_round_trip(fs, Seq::empty());
    assert(b + Seq::<u8>::empty() =~= b);
    crate::field_infos::lemma_unique_no_clash(fs);
}

} // verus!
