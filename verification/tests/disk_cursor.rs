use surch_index::disk_cursor::{
    decode_block_dir_entries, encode_block_dir_entry, p2_directory_has_expected_shape, BlockDirEntry, CursorStep, DiskPostingsCursor,
    BLOCK_DIR_ENTRY_ENCODED_LEN,
};
use surch_index::postings::{DiskPostingsAdvance, BLOCK_SIZE};

#[test]
fn block_dir_entry_encoding_round_trips() {
    let run = vec![
        BlockDirEntry { byte_offset_in_term_payload: 0, count: 128, max_doc_id: 1_000 },
        BlockDirEntry { byte_offset_in_term_payload: 300, count: 128, max_doc_id: 250_000 },
        BlockDirEntry { byte_offset_in_term_payload: 641, count: 17, max_doc_id: u32::MAX },
    ];
    let mut bytes = Vec::new();
    for entry in &run {
        bytes.extend_from_slice(&encode_block_dir_entry(entry));
    }
    assert_eq!(bytes.len(), run.len() * BLOCK_DIR_ENTRY_ENCODED_LEN as usize);
    let decoded = decode_block_dir_entries(&bytes, run.len()).expect("full run decodes");
    assert_eq!(decoded, run);
    assert_eq!(decode_block_dir_entries(&bytes[..bytes.len() - 1], run.len()), None, "truncated run must not decode");
}

fn two_block_directory() -> Vec<BlockDirEntry> {
    let block = BLOCK_SIZE as u32;
    vec![
        BlockDirEntry { byte_offset_in_term_payload: 0, count: block as u16, max_doc_id: block - 1 },
        BlockDirEntry { byte_offset_in_term_payload: 40, count: block as u16, max_doc_id: 2 * block - 1 },
    ]
}

#[test]
fn validation_de_bloc_refuse_un_ordre_intra_bloc_non_strict() {
    let directory = two_block_directory();
    let cursor = DiskPostingsCursor::open_with_directory(1_000, 90, directory.clone(), 2 * BLOCK_SIZE);
    let mut doc_ids: Vec<u32> = (BLOCK_SIZE as u32..BLOCK_SIZE as u32 * 2).collect();
    doc_ids.swap(1, 2);
    let freqs = vec![1; doc_ids.len()];

    assert!(
        !cursor.decoded_block_matches_directory(directory[1], &doc_ids, &freqs),
        "a non-strict order inside a block must be refused before it is published"
    );
}

#[test]
fn curseur_disque_refuse_la_borne_inferieure_corrompue_entre_blocs() {
    let block = BLOCK_SIZE as u32;
    let mut cursor = DiskPostingsCursor::open_with_directory(1_000, 90, two_block_directory(), 2 * BLOCK_SIZE);
    // The second block keeps its count and greatest id but restarts at the
    // previous block's greatest id.
    assert_eq!(cursor.advance_step(block), CursorStep::ReadBlock { offset: 1_040, len: 50, count: BLOCK_SIZE });
    let mut second: Vec<u32> = vec![block - 1];
    second.extend((block + 1)..(block * 2));
    assert!(!cursor.load_block(second, vec![1; BLOCK_SIZE]), "an inconsistent lower bound must be refused");
}

#[test]
fn disk_cursor_reads_only_the_blocks_it_needs() {
    let block = BLOCK_SIZE as u32;
    let mut cursor = DiskPostingsCursor::open_with_directory(500, 90, two_block_directory(), 2 * BLOCK_SIZE);
    assert_eq!(cursor.blocks_total(), 2);
    assert_eq!(cursor.doc_freq(), 2 * BLOCK_SIZE);

    // Block 0 is passed over from the directory alone.
    let step = cursor.advance_step(block + 5);
    assert_eq!(step, CursorStep::ReadBlock { offset: 540, len: 50, count: BLOCK_SIZE });
    assert_eq!(cursor.blocks_read(), 1);
    let ids: Vec<u32> = (block..2 * block).collect();
    let freqs: Vec<u32> = (0..block).map(|i| i % 5 + 1).collect();
    assert!(cursor.load_block(ids, freqs));

    assert_eq!(cursor.advance_step(block + 5), CursorStep::Done(DiskPostingsAdvance::Found(block + 5)));
    assert_eq!(cursor.freq(), 5 % 5 + 1);
    assert_eq!(cursor.advance_step(block + 5), CursorStep::Done(DiskPostingsAdvance::Found(block + 6)));
    assert_eq!(cursor.advance_step(2 * block - 1), CursorStep::Done(DiskPostingsAdvance::Found(2 * block - 1)));
    assert_eq!(cursor.advance_step(2 * block - 1), CursorStep::Done(DiskPostingsAdvance::Exhausted));
    assert_eq!(cursor.blocks_read(), 1);
}

#[test]
fn disk_cursor_reports_a_block_past_its_payload_as_an_error() {
    let directory = vec![BlockDirEntry { byte_offset_in_term_payload: 100, count: 1, max_doc_id: 9 }];
    let mut cursor = DiskPostingsCursor::open_with_directory(0, 50, directory, 1);
    assert_eq!(cursor.advance_step(0), CursorStep::Done(DiskPostingsAdvance::Error));
    let directory = vec![BlockDirEntry { byte_offset_in_term_payload: 1, count: 1, max_doc_id: 9 }];
    let mut cursor = DiskPostingsCursor::open_with_directory(u64::MAX, 50, directory, 1);
    assert_eq!(cursor.advance_step(0), CursorStep::Done(DiskPostingsAdvance::Error));
}

#[test]
fn curseur_disque_rejette_l_addition_d_offset_debordante() {
    let mut cursor = DiskPostingsCursor::open_with_directory(u64::MAX, 90, two_block_directory(), 2 * BLOCK_SIZE);

    assert_eq!(
        cursor.advance_step(BLOCK_SIZE as u32),
        CursorStep::Done(DiskPostingsAdvance::Error),
        "adding the second block's offset must stay checked"
    );
}

fn directory_of(counts: &[u16], offsets: &[u32], maxes: &[u32]) -> Vec<BlockDirEntry> {
    counts
        .iter()
        .zip(offsets)
        .zip(maxes)
        .map(|((&count, &byte_offset_in_term_payload), &max_doc_id)| BlockDirEntry {
            byte_offset_in_term_payload,
            count,
            max_doc_id,
        })
        .collect()
}

#[test]
fn directory_shape_accepts_the_announced_layout() {
    let dir = directory_of(&[128, 128, 44], &[0, 400, 820], &[200, 900, 1_500]);
    assert!(p2_directory_has_expected_shape(&dir, 300, 1_000));
    let single = directory_of(&[1], &[0], &[7]);
    assert!(p2_directory_has_expected_shape(&single, 1, 5));
}

#[test]
fn directory_shape_rejects_each_broken_property() {
    let good = directory_of(&[128, 72], &[0, 400], &[200, 900]);
    assert!(p2_directory_has_expected_shape(&good, 200, 1_000));
    // no postings
    assert!(!p2_directory_has_expected_shape(&[], 0, 1_000));
    // wrong number of blocks
    assert!(!p2_directory_has_expected_shape(&good, 300, 1_000));
    // first block not at offset 0
    assert!(!p2_directory_has_expected_shape(&directory_of(&[128, 72], &[4, 400], &[200, 900]), 200, 1_000));
    // last block outside the payload
    assert!(!p2_directory_has_expected_shape(&good, 200, 400));
    // a short block that is not the last
    assert!(!p2_directory_has_expected_shape(&directory_of(&[100, 100], &[0, 400], &[200, 900]), 200, 1_000));
    // offsets not increasing
    assert!(!p2_directory_has_expected_shape(&directory_of(&[128, 72], &[0, 0], &[200, 900]), 200, 1_000));
    // greatest ids not increasing
    assert!(!p2_directory_has_expected_shape(&directory_of(&[128, 72], &[0, 400], &[900, 900]), 200, 1_000));
}
