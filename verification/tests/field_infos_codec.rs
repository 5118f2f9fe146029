use surch_index::data_io::{write_bytes, write_string, write_vint};
use surch_index::field_infos::{DocValuesType, FieldInfo, FieldInfos, IndexOptions};
use surch_index::field_infos_codec::{decode_field_infos, encode_field_infos, FieldInfosCodecError};

const FIELD_INFOS_CLASSIC: &str = "name\tnumber\tindex_options\tdoc_values_type\tomit_norms\tstore_payloads\n\
title\t0\tDocsAndFreqsAndPositions\tNone\tfalse\ttrue\n\
body\t1\tDocsAndFreqsAndPositionsAndOffsets\tNone\tfalse\tfalse\n\
published_at\t2\tNone\tNumeric\ttrue\tfalse\n";

#[test]
fn field_infos_codec_round_trips_classic_fixture() {
    let expected = fixture_field_infos();

    let bytes = encode_field_infos(&expected).expect("encode field infos");
    let decoded = decode_field_infos(&bytes).expect("decode field infos");

    assert_eq!(decoded, expected);
    assert_eq!(&bytes[..4], b"SFI0");
}

#[test]
fn field_infos_codec_rejects_invalid_magic() {
    let mut bytes = encode_field_infos(&fixture_field_infos()).expect("encode field infos");
    bytes[0] = b'X';

    let err = decode_field_infos(&bytes).expect_err("invalid magic rejected");

    assert!(matches!(err, FieldInfosCodecError::InvalidMagic { actual } if actual == *b"XFI0"));
}

#[test]
fn field_infos_codec_rejects_duplicate_field_from_bytes() {
    let mut output = Vec::new();
    write_bytes(&mut output, b"SFI0");
    write_vint(&mut output, 2);
    write_field(&mut output, "title", 0, 1, 0, false, false);
    write_field(&mut output, "title", 1, 2, 0, false, true);

    let err = decode_field_infos(&output).expect_err("duplicate rejected");

    assert!(matches!(err, FieldInfosCodecError::FieldInfos(_)));
}

#[test]
fn field_infos_codec_rejects_unknown_index_options_byte() {
    let mut output = Vec::new();
    write_bytes(&mut output, b"SFI0");
    write_vint(&mut output, 1);
    write_field(&mut output, "title", 0, 9, 0, false, false);

    let err = decode_field_infos(&output).expect_err("unknown index options");

    assert!(matches!(err, FieldInfosCodecError::UnknownIndexOptions { value: 9 }));
}

#[test]
fn field_infos_codec_rejects_truncated_input() {
    let bytes = encode_field_infos(&fixture_field_infos()).expect("encode field infos");
    let err = decode_field_infos(&bytes[..bytes.len() - 1]).expect_err("truncated");
    assert!(matches!(err, FieldInfosCodecError::DataIo(_)));
}

fn fixture_field_infos() -> FieldInfos {
    let fields = FIELD_INFOS_CLASSIC
        .lines()
        .skip(1)
        .filter(|line| !line.trim().is_empty())
        .map(parse_fixture_field)
        .collect();

    FieldInfos::new(fields).expect("fixture field infos")
}

fn parse_fixture_field(line: &str) -> FieldInfo {
    let columns = line.split('\t').collect::<Vec<_>>();
    assert_eq!(columns.len(), 6, "fixture row should have 6 columns");

    FieldInfo::new(
        columns[0],
        columns[1].parse().expect("field number"),
        parse_index_options(columns[2]),
        parse_doc_values_type(columns[3]),
        parse_bool(columns[4]),
        parse_bool(columns[5]),
    )
}

fn parse_index_options(value: &str) -> IndexOptions {
    match value {
        "None" => IndexOptions::Absent,
        "Docs" => IndexOptions::Docs,
        "DocsAndFreqs" => IndexOptions::DocsAndFreqs,
        "DocsAndFreqsAndPositions" => IndexOptions::DocsAndFreqsAndPositions,
        "DocsAndFreqsAndPositionsAndOffsets" => IndexOptions::DocsAndFreqsAndPositionsAndOffsets,
        other => panic!("unknown index_options fixture value: {other}"),
    }
}

fn parse_doc_values_type(value: &str) -> DocValuesType {
    match value {
        "None" => DocValuesType::Absent,
        "Numeric" => DocValuesType::Numeric,
        "Binary" => DocValuesType::Binary,
        "Sorted" => DocValuesType::Sorted,
        "SortedNumeric" => DocValuesType::SortedNumeric,
        "SortedSet" => DocValuesType::SortedSet,
        other => panic!("unknown doc_values_type fixture value: {other}"),
    }
}

fn parse_bool(value: &str) -> bool {
    match value {
        "true" => true,
        "false" => false,
        other => panic!("unknown bool fixture value: {other}"),
    }
}

fn write_field(
    output: &mut Vec<u8>,
    name: &str,
    number: i32,
    index_options: u8,
    doc_values_type: u8,
    omit_norms: bool,
    store_payloads: bool,
) {
    write_string(output, name).expect("write name");
    write_vint(output, number);
    output.push(index_options);
    output.push(doc_values_type);
    output.push(u8::from(omit_norms));
    output.push(u8::from(store_payloads));
}
