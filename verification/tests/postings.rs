use surch_index::postings::{
    build_block_metas, build_block_metas_from_freqs, decode_term_entry, prefix_upper_bound, dedup_merge_postings, encode_term_entry, Posting, PostingsBuilder,
    PostingsEnum, PostingsError, TermEntry, TermsEnum, BLOCK_SIZE, TERM_ENTRY_ENCODED_LEN,
};

#[test]
fn postings_builder_rejects_empty_field_and_term() {
    let mut builder = PostingsBuilder::new();

    let err = builder.add("", "search", 1, vec![0]).expect_err("empty field rejected");
    assert!(matches!(err, PostingsError::EmptyField));

    let err = builder.add("body", "", 1, vec![0]).expect_err("empty term rejected");
    assert!(matches!(err, PostingsError::EmptyTerm));
}

#[test]
fn term_entry_encoding_round_trips() {
    let entries = [
        TermEntry { postings_offset: 0, postings_len: 0, postings_count: 0, block_dir_offset: 0, block_dir_count: 0 },
        TermEntry { postings_offset: 12, postings_len: 512, postings_count: 129, block_dir_offset: 4096, block_dir_count: 2 },
        TermEntry {
            postings_offset: u32::MAX as u64 + 1,
            postings_len: u32::MAX,
            postings_count: u32::MAX,
            block_dir_offset: u64::MAX,
            block_dir_count: u32::MAX,
        },
    ];
    for entry in entries {
        let encoded = encode_term_entry(&entry);
        assert_eq!(encoded.len(), TERM_ENTRY_ENCODED_LEN as usize);
        let decoded = decode_term_entry(&encoded).expect("full-length buffer decodes");
        assert_eq!(decoded, entry);
    }
    assert_eq!(decode_term_entry(&[0u8; 12]), None, "truncated buffer must not decode");
}

#[test]
fn term_entry_bytes_are_little_endian_fields_in_order() {
    let entry = TermEntry {
        postings_offset: 0x0102_0304_0506_0708,
        postings_len: 0x0a0b_0c0d,
        postings_count: 1,
        block_dir_offset: 2,
        block_dir_count: 3,
    };
    let encoded = encode_term_entry(&entry);
    assert_eq!(&encoded[..8], &[8, 7, 6, 5, 4, 3, 2, 1]);
    assert_eq!(&encoded[8..12], &[0x0d, 0x0c, 0x0b, 0x0a]);
    assert_eq!(&encoded[12..16], &[1, 0, 0, 0]);
    assert_eq!(&encoded[24..28], &[3, 0, 0, 0]);
}

#[test]
fn postings_builder_accepts_postings_and_reports_memory() {
    let mut builder = PostingsBuilder::new();
    assert_eq!(builder.memory_bytes(), 0);
    builder.add("body", "search", 7, vec![4, 9]).expect("search in doc 7");
    builder.add("body", "rust", 3, vec![1]).expect("rust in doc 3");
    assert!(builder.memory_bytes() > 0);
}

#[test]
fn posting_frequency_comes_from_positions() {
    assert_eq!(Posting::freq_from_positions(&[]), 1);
    assert_eq!(Posting::freq_from_positions(&[1, 5, 9]), 3);
    let posting = Posting::new(4, 2);
    assert_eq!(posting.doc_id, 4);
    assert_eq!(posting.freq, 2);
}

#[test]
fn dedup_merges_runs_of_equal_doc_ids_by_summing_freqs() {
    let mut postings = vec![Posting::new(2, 2), Posting::new(5, 1), Posting::new(5, 3), Posting::new(9, 1)];
    dedup_merge_postings(&mut postings);
    assert_eq!(postings, vec![Posting::new(2, 2), Posting::new(5, 4), Posting::new(9, 1)]);

    let mut saturating = vec![Posting::new(1, u32::MAX), Posting::new(1, 5)];
    dedup_merge_postings(&mut saturating);
    assert_eq!(saturating, vec![Posting::new(1, u32::MAX)]);
}

#[test]
fn block_metas_take_the_max_freq_of_each_block() {
    let postings: Vec<Posting> = (0..300u32).map(|d| Posting::new(d * 2, if d == 200 { 40 } else { d % 7 + 1 })).collect();
    let metas = build_block_metas(&postings);
    assert_eq!(BLOCK_SIZE, 128);
    assert_eq!(metas.len(), 3);
    assert_eq!(metas[0].max_term_freq, 7);
    assert_eq!(metas[1].max_term_freq, 40);
    assert_eq!(metas[2].max_term_freq, 7);
    assert!(build_block_metas(&[]).is_empty());
}

#[test]
fn terms_and_postings_enums_walk_in_order() {
    let mut terms = TermsEnum::new(vec!["a".to_owned(), "b".to_owned()]);
    assert_eq!(terms.next(), Some("a".to_owned()));
    assert_eq!(terms.next(), Some("b".to_owned()));
    assert_eq!(terms.next(), None);

    let doc_ids = [1u32, 4];
    let freqs = [2u32, 1];
    let mut postings = PostingsEnum::new(&doc_ids, &freqs);
    assert_eq!(postings.next(), Some(Posting::new(1, 2)));
    assert_eq!(postings.next(), Some(Posting::new(4, 1)));
    assert_eq!(postings.next(), None);
}

#[test]
fn block_metas_from_freqs_match_block_metas_from_postings() {
    let freqs: Vec<u32> = (0..300u32).map(|i| (i * 7919) % 97).collect();
    let postings: Vec<Posting> = freqs.iter().enumerate().map(|(i, &f)| Posting::new(i as u32, f)).collect();
    let from_freqs = build_block_metas_from_freqs(&freqs);
    assert_eq!(from_freqs, build_block_metas(&postings));
    assert_eq!(from_freqs.len(), 3);
    assert_eq!(from_freqs[2].max_term_freq, *freqs[256..].iter().max().unwrap());
    assert!(build_block_metas_from_freqs(&[]).is_empty());
}

#[test]
fn prefix_upper_bound_increments_the_last_byte_below_ff() {
    assert_eq!(prefix_upper_bound(b"dup"), Some(b"duq".to_vec()));
    assert_eq!(prefix_upper_bound(&[0x61, 0xFF, 0xFF]), Some(vec![0x62]));
    assert_eq!(prefix_upper_bound(&[0x61, 0x62, 0xFF]), Some(vec![0x61, 0x63]));
    assert_eq!(prefix_upper_bound(&[0xFE]), Some(vec![0xFF]));
    assert_eq!(prefix_upper_bound(&[0xFF, 0xFF]), None);
    assert_eq!(prefix_upper_bound(&[]), None);
}

#[test]
fn prefix_range_holds_exactly_the_prefixed_strings() {
    let prefix = b"ma";
    let upper = prefix_upper_bound(prefix).unwrap();
    for s in [&b"m"[..], b"ma", b"mar", b"martin", b"ma\xff\xff", b"mb", b"mazzz", b"lz", b"n"] {
        let in_range = s >= &prefix[..] && s < &upper[..];
        assert_eq!(in_range, s.starts_with(prefix), "{:?}", s);
    }
}
