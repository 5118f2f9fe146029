use surch_index::postings::{Posting, PostingsBuilder, PostingsEnum, TermsEnum, BLOCK_SIZE};
use surch_index::term_dictionary::{merge_term_postings, TERM_ROARING_THRESHOLD};

fn all_terms(mut terms: TermsEnum) -> Vec<String> {
    let mut out = Vec::new();
    while let Some(term) = terms.next() {
        out.push(term);
    }
    out
}

fn all_postings(mut postings: PostingsEnum<'_>) -> Vec<Posting> {
    let mut out = Vec::new();
    while let Some(posting) = postings.next() {
        out.push(posting);
    }
    out
}

#[test]
fn postings_builder_indexes_terms_and_postings_in_deterministic_order() {
    let mut builder = PostingsBuilder::new();

    builder.add("body", "search", 7, vec![4, 9]).expect("search in doc 7");
    builder.add("body", "rust", 3, vec![1]).expect("rust in doc 3");
    builder.add("body", "search", 2, vec![0, 5, 8]).expect("search in doc 2");
    builder.add("title", "surch", 1, vec![0]).expect("title term");

    let dictionary = builder.build();

    assert_eq!(all_terms(dictionary.terms("body")), vec!["rust".to_string(), "search".to_string()]);
    assert_eq!(all_terms(dictionary.terms("title")), vec!["surch".to_string()]);
    assert_eq!(all_terms(dictionary.terms("missing")), Vec::<String>::new());

    let search_postings = all_postings(dictionary.postings("body", "search").expect("body/search postings"));
    assert_eq!(search_postings.len(), 2);
    assert_eq!(search_postings[0].doc_id, 2);
    assert_eq!(search_postings[0].freq, 3);
    assert_eq!(search_postings[1].doc_id, 7);
    assert_eq!(search_postings[1].freq, 2);
}

#[test]
fn postings_builder_derives_frequency_one_when_positions_are_absent() {
    let mut builder = PostingsBuilder::new();

    builder.add("body", "stored", 4, Vec::new()).expect("docs-only posting");

    let dictionary = builder.build();
    let posting = dictionary
        .postings("body", "stored")
        .expect("body/stored postings")
        .next()
        .expect("posting");

    assert_eq!(posting.doc_id, 4);
    assert_eq!(posting.freq, 1);
}

#[test]
fn term_dictionary_fst_lookup_returns_postings_by_term() {
    let mut builder = PostingsBuilder::new();
    builder.add("address", "rue de la paix", 1, vec![0, 1, 2, 3]).expect("address/rue de la paix");
    builder.add("address", "rue de la liberte", 2, vec![0, 1, 2, 3]).expect("address/rue de la liberte");
    builder.add("address", "rue mozart", 3, vec![0, 1]).expect("address/rue mozart");
    builder.add("address", "avenue victor hugo", 4, vec![0, 1, 2]).expect("address/avenue victor hugo");

    let dictionary = builder.build();

    let paix = all_postings(dictionary.postings("address", "rue de la paix").expect("rue de la paix postings"));
    assert_eq!(paix.len(), 1);
    assert_eq!(paix[0].doc_id, 1);
    assert_eq!(paix[0].freq, 4);

    let mozart = all_postings(dictionary.postings("address", "rue mozart").expect("rue mozart postings"));
    assert_eq!(mozart.len(), 1);
    assert_eq!(mozart[0].doc_id, 3);

    let avenue =
        all_postings(dictionary.postings("address", "avenue victor hugo").expect("avenue victor hugo postings"));
    assert_eq!(avenue.len(), 1);
    assert_eq!(avenue[0].doc_id, 4);

    assert!(dictionary.postings("address", "rue de la republique").is_none());
    assert!(dictionary.postings("missing_field", "rue mozart").is_none());
}

#[test]
fn term_dictionary_block_metas_match_postings_chunks() {
    let mut builder = PostingsBuilder::new();
    let total_docs: u32 = (BLOCK_SIZE as u32) * 2 + 17;
    for offset in 0..total_docs {
        let doc_id = (offset * 11 + 3) % total_docs;
        builder.add("body", "hit", doc_id, vec![0]).expect("hit posting");
    }

    let dictionary = builder.build();
    let postings = all_postings(dictionary.postings("body", "hit").expect("hit postings"));
    assert_eq!(postings.len(), total_docs as usize);

    let metas = dictionary.block_metas("body", "hit").expect("hit block_metas");
    assert_eq!(metas.len(), 3, "two full blocks + one partial trailing block");
    assert!(metas.iter().all(|meta| meta.max_term_freq == 1));

    let list = dictionary.postings_with_block_metas("body", "hit").expect("hit postings list");
    assert_eq!(list.doc_freq_from_block_metas(), total_docs as usize);

    for (chunk, ids) in postings.chunks(BLOCK_SIZE).zip(list.doc_ids().chunks(BLOCK_SIZE)) {
        assert_eq!(ids[0], chunk.first().expect("chunk").doc_id);
        assert_eq!(ids[ids.len() - 1], chunk.last().expect("chunk").doc_id);
    }

    assert!(dictionary.block_metas("body", "miss").is_none());
    assert!(dictionary.block_metas("missing", "hit").is_none());
}

#[test]
fn term_dictionary_runtime_postings_exposes_for_block_metadata() {
    let mut builder = PostingsBuilder::new();
    let total_docs = BLOCK_SIZE * 2 + 9;
    for doc_id in 0..total_docs {
        builder.add("body", "runtime", doc_id as u32, vec![0]).expect("runtime posting");
    }

    let dictionary = builder.build();
    let runtime_postings = dictionary.postings_with_block_metas("body", "runtime").expect("runtime postings");

    assert_eq!(runtime_postings.doc_ids().len(), total_docs);
    assert_eq!(runtime_postings.freqs().len(), total_docs);
    assert_eq!(runtime_postings.block_metas().len(), 3);
    assert_eq!(runtime_postings.doc_freq_from_block_metas(), total_docs);
    assert_eq!(
        runtime_postings.doc_ids().chunks(BLOCK_SIZE).map(<[_]>::len).collect::<Vec<_>>(),
        vec![BLOCK_SIZE, BLOCK_SIZE, 9]
    );
}

#[test]
fn term_dictionary_block_metas_max_freq_per_block() {
    let mut builder = PostingsBuilder::new();
    let total_docs: u32 = (BLOCK_SIZE as u32) * 2 + 30;
    for doc_id in 0..total_docs {
        let positions = if doc_id == 10 {
            (0..9).collect::<Vec<_>>()
        } else if doc_id == 200 {
            (0..5).collect::<Vec<_>>()
        } else if doc_id == 270 {
            (0..7).collect::<Vec<_>>()
        } else {
            vec![0]
        };
        builder.add("body", "varied", doc_id, positions).expect("varied posting");
    }

    let dictionary = builder.build();
    let metas = dictionary.block_metas("body", "varied").expect("varied block_metas");
    assert_eq!(metas.len(), 3);
    assert_eq!(metas[0].max_term_freq, 9);
    assert_eq!(metas[1].max_term_freq, 5);
    assert_eq!(metas[2].max_term_freq, 7);

    let list = dictionary.postings_with_block_metas("body", "varied").expect("varied postings list");
    let ids = list.doc_ids();
    assert_eq!(ids[0], 0);
    assert_eq!(ids[127], 127);
    assert_eq!(ids[128], 128);
    assert_eq!(ids[255], 255);
    assert_eq!(ids[256], 256);
    assert_eq!(ids[ids.len() - 1], total_docs - 1);
}

#[test]
fn postings_builder_dedups_multivalue_doc_id() {
    let mut builder = PostingsBuilder::new();

    builder.add("name", "jean", 1, vec![0]).expect("doc 1 jean");
    builder.add("name", "jean", 10, vec![0]).expect("doc 10 jean");
    builder.add("name", "jean", 5, vec![0]).expect("doc 5 jean, value #1");
    builder.add("name", "jean", 5, vec![0]).expect("doc 5 jean, value #2");

    let dictionary = builder.build();

    let postings = all_postings(dictionary.postings("name", "jean").expect("name/jean postings"));

    assert_eq!(postings.len(), 3);

    let doc_ids: Vec<u32> = postings.iter().map(|p| p.doc_id).collect();
    assert_eq!(doc_ids, vec![1, 5, 10]);
    assert!(doc_ids.windows(2).all(|pair| pair[0] < pair[1]));

    let doc5 = postings.iter().find(|p| p.doc_id == 5).expect("doc 5 posting");
    assert_eq!(doc5.freq, 2);

    assert_eq!(postings[0].freq, 1);
    assert_eq!(postings[2].freq, 1);
}

#[test]
fn term_dictionary_fst_terms_returns_lex_sorted() {
    let mut builder = PostingsBuilder::new();
    builder.add("body", "zebra", 1, vec![0]).expect("zebra");
    builder.add("body", "alpha", 2, vec![0]).expect("alpha");
    builder.add("body", "mango", 3, vec![0]).expect("mango");
    builder.add("body", "alfa", 4, vec![0]).expect("alfa");
    builder.add("body", "beta", 5, vec![0]).expect("beta");

    let dictionary = builder.build();

    let terms = all_terms(dictionary.terms("body"));
    assert_eq!(
        terms,
        vec![
            "alfa".to_string(),
            "alpha".to_string(),
            "beta".to_string(),
            "mango".to_string(),
            "zebra".to_string(),
        ]
    );

    let missing = all_terms(dictionary.terms("nope"));
    assert!(missing.is_empty());
}

#[test]
fn terms_are_ordered_by_utf8_bytes() {
    let mut builder = PostingsBuilder::new();
    for (doc, term) in ["étienne", "zoe", "émile", "Zorro", "eve", "ωmega"].iter().enumerate() {
        builder.add("name", term, doc as u32, vec![0]).expect("term");
    }
    let dictionary = builder.build();
    let terms = all_terms(dictionary.terms("name"));
    let mut expected: Vec<String> = terms.clone();
    expected.sort();
    assert_eq!(terms, expected);
    assert_eq!(terms, vec!["Zorro", "eve", "zoe", "émile", "étienne", "ωmega"]);
    assert_eq!(all_postings(dictionary.postings("name", "émile").expect("émile"))[0].doc_id, 2);
}

#[test]
fn field_names_are_listed_in_order() {
    let mut builder = PostingsBuilder::new();
    builder.add("title", "a", 0, vec![0]).expect("title");
    builder.add("body", "b", 0, vec![0]).expect("body");
    builder.add("author", "c", 1, vec![0]).expect("author");
    let dictionary = builder.build();
    assert_eq!(dictionary.field_names(), vec!["author".to_string(), "body".to_string(), "title".to_string()]);
}

#[test]
fn prefix_doc_ids_unites_the_postings_of_prefixed_terms() {
    let mut builder = PostingsBuilder::new();
    builder.add("name", "dupont", 3, vec![0]).expect("dupont");
    builder.add("name", "dupre", 1, vec![0]).expect("dupre");
    builder.add("name", "dupre", 7, vec![0]).expect("dupre");
    builder.add("name", "dup", 3, vec![0]).expect("dup");
    builder.add("name", "duq", 9, vec![0]).expect("duq");
    builder.add("name", "martin", 2, vec![0]).expect("martin");
    let dictionary = builder.build();
    assert_eq!(dictionary.prefix_doc_ids("name", "dup"), vec![1, 3, 7]);
    assert_eq!(dictionary.prefix_doc_ids("name", "mar"), vec![2]);
    assert_eq!(dictionary.prefix_doc_ids("name", ""), vec![1, 2, 3, 7, 9]);
    assert!(dictionary.prefix_doc_ids("name", "zz").is_empty());
    assert!(dictionary.prefix_doc_ids("missing", "dup").is_empty());
}

#[test]
fn frequent_terms_carry_a_roaring_set() {
    let mut builder = PostingsBuilder::new();
    let frequent = TERM_ROARING_THRESHOLD as u32 + 1;
    for doc_id in 0..frequent {
        builder.add("body", "common", doc_id * 2, vec![0]).expect("common");
    }
    for doc_id in 0..TERM_ROARING_THRESHOLD as u32 {
        builder.add("body", "edge", doc_id, vec![0]).expect("edge");
    }
    let dictionary = builder.build();
    let common = dictionary.postings_with_block_metas("body", "common").expect("common list");
    let set = common.roaring().expect("roaring set for a frequent term");
    assert_eq!(set.len(), frequent as usize);
    let edge = dictionary.postings_with_block_metas("body", "edge").expect("edge list");
    assert!(edge.roaring().is_none());
}

#[test]
fn merging_a_term_sorts_and_sums_with_saturation() {
    let merged = merge_term_postings(&[
        Posting::new(9, 1),
        Posting::new(2, 3),
        Posting::new(9, u32::MAX),
        Posting::new(4, 2),
        Posting::new(2, 5),
    ]);
    assert_eq!(merged, vec![Posting::new(2, 8), Posting::new(4, 2), Posting::new(9, u32::MAX)]);
    assert!(merge_term_postings(&[]).is_empty());
}

fn sample_dictionary() -> surch_index::term_dictionary::TermDictionary {
    let mut builder = PostingsBuilder::new();
    builder.add("body", "search", 7, vec![4, 9]).expect("search in doc 7");
    builder.add("body", "rust", 3, vec![1]).expect("rust in doc 3");
    builder.add("body", "search", 2, vec![0, 5, 8]).expect("search in doc 2");
    builder.add("title", "surch", 1, vec![0]).expect("title term");
    builder.build()
}

#[test]
fn postings_bytes_count_term_bytes_and_both_channels() {
    let dictionary = sample_dictionary();
    // body: "rust" + "search" = 10 bytes, 3 postings * 8; title: "surch" = 5 bytes, 1 posting * 8
    assert_eq!(dictionary.postings_bytes(), 10 + 24 + 5 + 8);
}

#[test]
fn block_metas_bytes_count_one_block_per_short_term() {
    let dictionary = sample_dictionary();
    let meta = std::mem::size_of::<surch_index::postings::BlockMeta>() as u64;
    assert_eq!(dictionary.block_metas_bytes(), 3 * meta);
}

#[test]
fn fst_bytes_is_the_size_of_each_field_fst() {
    let dictionary = sample_dictionary();
    let mut body = fst::MapBuilder::memory();
    body.insert("rust", 0).unwrap();
    body.insert("search", 1).unwrap();
    let mut title = fst::MapBuilder::memory();
    title.insert("surch", 0).unwrap();
    let expected = body.into_map().as_fst().as_bytes().len() + title.into_map().as_fst().as_bytes().len();
    assert_eq!(dictionary.fst_bytes(), expected as u64);
    assert!(dictionary.fst_bytes() > 0);
}

#[test]
fn merging_dictionaries_unites_fields_terms_and_postings() {
    let mut first = PostingsBuilder::new();
    first.add("body", "rust", 1, vec![0]).expect("rust");
    first.add("body", "search", 2, vec![0, 1]).expect("search");
    first.add("title", "surch", 3, vec![0]).expect("surch");
    let first = first.build();

    let mut second = PostingsBuilder::new();
    second.add("body", "search", 10, vec![0]).expect("search");
    second.add("body", "alpha", 11, vec![0]).expect("alpha");
    second.add("author", "dupont", 12, vec![0, 3, 5]).expect("dupont");
    let second = second.build();

    let merged = surch_index::term_dictionary::merge_term_dictionaries(&[&first, &second]);

    assert_eq!(merged.field_names(), vec!["author".to_string(), "body".to_string(), "title".to_string()]);
    assert_eq!(
        all_terms(merged.terms("body")),
        vec!["alpha".to_string(), "rust".to_string(), "search".to_string()]
    );
    let search = all_postings(merged.postings("body", "search").expect("search"));
    assert_eq!(search, vec![Posting::new(2, 2), Posting::new(10, 1)]);
    let dupont = all_postings(merged.postings("author", "dupont").expect("dupont"));
    assert_eq!(dupont, vec![Posting::new(12, 3)]);
    assert!(merged.postings("title", "rust").is_none());
    assert_eq!(merged.prefix_doc_ids("body", "se"), vec![2, 10]);
    assert_eq!(merged.block_metas("body", "search").expect("metas")[0].max_term_freq, 2);
}

#[test]
fn merging_no_dictionary_gives_an_empty_one() {
    let merged = surch_index::term_dictionary::merge_term_dictionaries(&[]);
    assert!(merged.field_names().is_empty());
    assert!(all_terms(merged.terms("body")).is_empty());
}

#[test]
fn merge_streams_fst_without_altering_merged_term_dictionary_contents() {
    const TERMS_PER_SEGMENT: u32 = 500;
    const SEGMENTS: u32 = 3;

    fn build_segment(segment_idx: u32) -> surch_index::term_dictionary::TermDictionary {
        let mut builder = PostingsBuilder::new();
        let doc_base = segment_idx * TERMS_PER_SEGMENT;
        for i in 0..TERMS_PER_SEGMENT {
            let doc_id = doc_base + i;
            builder.add("body", "shared", doc_id, vec![0]).expect("shared term");
            builder
                .add("body", &format!("seg{segment_idx}-term{i}"), doc_id, vec![0])
                .expect("segment-unique term");
        }
        assert!(builder.fits_offsets_check());
        builder.build()
    }

    let segments: Vec<_> = (0..SEGMENTS).map(build_segment).collect();
    let refs: Vec<&surch_index::term_dictionary::TermDictionary> = segments.iter().collect();
    let merged = surch_index::term_dictionary::merge_term_dictionaries(&refs);

    for segment_idx in 0..SEGMENTS {
        let doc_base = segment_idx * TERMS_PER_SEGMENT;
        for i in 0..TERMS_PER_SEGMENT {
            let doc_id = doc_base + i;
            let term = format!("seg{segment_idx}-term{i}");
            let ids: Vec<u32> = all_postings(
                merged.postings("body", &term).unwrap_or_else(|| panic!("term {term} must survive the merge")),
            )
            .iter()
            .map(|p| p.doc_id)
            .collect();
            assert_eq!(ids, vec![doc_id], "term {term} doc_id mismatch after merge");
        }
    }
    let shared = all_postings(merged.postings("body", "shared").expect("shared term must survive the merge"));
    let shared_ids: Vec<u32> = shared.iter().map(|p| p.doc_id).collect();
    let expected_shared: Vec<u32> = (0..SEGMENTS * TERMS_PER_SEGMENT).collect();
    assert_eq!(shared_ids, expected_shared);
    assert_eq!(shared.len(), expected_shared.len());

    let all = all_terms(merged.terms("body"));
    assert_eq!(all.len(), 1 + (SEGMENTS * TERMS_PER_SEGMENT) as usize);
}

#[test]
fn fits_offsets_check_accepts_a_small_builder() {
    let mut builder = PostingsBuilder::new();
    assert!(builder.fits_offsets_check());
    builder.add("body", "rust", 1, vec![0]).expect("rust");
    assert!(builder.fits_offsets_check());
    let bytes = builder.memory_bytes();
    assert!(bytes >= 72 + 4 + 72 + 4 + 8);
    assert!(bytes < u64::MAX);
}
