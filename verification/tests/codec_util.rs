use surch_index::codec_util::{check_footer, footer_length, read_index_header, write_footer, write_index_header, CodecError};

#[test]
fn footer_round_trips_and_catches_a_flipped_byte() {
    let mut bytes = b"payload".to_vec();
    write_footer(&mut bytes);
    assert_eq!(bytes.len(), 7 + footer_length());
    assert!(check_footer(&bytes).is_ok());
    let mut corrupt = bytes.clone();
    corrupt[0] ^= 1;
    assert!(check_footer(&corrupt).is_err());
    assert!(check_footer(&bytes[..4]).is_err());
}

#[test]
fn footer_checksum_is_the_crc32_of_the_payload() {
    let mut bytes = b"abc".to_vec();
    write_footer(&mut bytes);
    let crc = crc32fast::hash(&bytes[..bytes.len() - 8]) as u64;
    assert_eq!(&bytes[bytes.len() - 8..], &crc.to_be_bytes());
}

#[test]
fn index_header_round_trips() {
    let mut bytes = Vec::new();
    write_index_header(&mut bytes, "Codec", 3, &[9; 16], "");
    let (id, end) = read_index_header(&bytes, 0, "Codec", 1, 5, "").expect("header");
    assert_eq!(id, [9; 16]);
    assert_eq!(end, bytes.len());
    let err = read_index_header(&bytes, 0, "Other", 1, 5, "").expect_err("codec mismatch");
    assert!(matches!(err, CodecError::CodecMismatch));
}
