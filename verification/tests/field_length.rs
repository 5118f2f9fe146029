use surch_index::field_length::{
    aggregate_field_stats, byte4_to_int, decode_doc_len_byte, int_to_byte4, AggregatedFieldStats, FieldLengthStats,
};

#[test]
fn small_lengths_are_stored_exactly() {
    for v in 0..24u32 {
        assert_eq!(int_to_byte4(v), v as u8);
        assert_eq!(byte4_to_int(int_to_byte4(v)), v);
    }
}

#[test]
fn larger_lengths_are_quantized_down() {
    assert_eq!(int_to_byte4(24), 24);
    assert_eq!(int_to_byte4(100), 57);
    assert_eq!(byte4_to_int(57), 96);
    assert_eq!(decode_doc_len_byte(0), 0);
    assert_eq!(decode_doc_len_byte(57), 96);
    for v in [24u32, 31, 32, 100, 1_000, 65_536, 1 << 30] {
        let back = byte4_to_int(int_to_byte4(v));
        assert!(back <= v, "{v} came back as {back}");
    }
}

#[test]
fn field_length_stats_track_counts_totals_and_minimum() {
    let mut stats = FieldLengthStats::new();
    assert_eq!(stats.min_doc_len(), None);
    stats.record_doc_len(3, 100, true);
    assert_eq!(stats.doc_count, 1);
    assert_eq!(stats.total_terms, 100);
    assert_eq!(stats.doc_len(3), Some(96));
    assert_eq!(stats.doc_len(0), None);
    assert_eq!(stats.doc_len_dense(), &[0, 0, 0, 57]);
    assert_eq!(stats.min_doc_len(), Some(96));

    stats.record_doc_len(1, 5, true);
    assert_eq!(stats.min_doc_len(), Some(5));
    stats.record_doc_len(0, 0, true);
    assert_eq!(stats.doc_count, 2);

    // Overwriting the minimum with a larger length rescans for the new one.
    stats.record_doc_len(1, 200, true);
    assert_eq!(stats.doc_count, 2);
    assert_eq!(stats.total_terms, 100 + 200);
    assert_eq!(stats.min_doc_len(), Some(96));
}

#[test]
fn field_length_stats_without_norms_only_count() {
    let mut stats = FieldLengthStats::new();
    stats.record_doc_len(7, 12, false);
    assert_eq!(stats.doc_count, 1);
    assert_eq!(stats.total_terms, 0);
    assert!(stats.doc_len_dense().is_empty());
    assert_eq!(stats.min_doc_len(), None);
}

#[test]
fn aggregated_stats_of_one_segment_are_that_segment() {
    let mut stats = FieldLengthStats::new();
    stats.record_doc_len(0, 4, true);
    stats.record_doc_len(1, 9, true);
    let agg = aggregate_field_stats(std::slice::from_ref(&stats)).expect("one segment");
    assert_eq!(agg.doc_count, stats.doc_count);
    assert_eq!(agg.total_terms, stats.total_terms);
    assert_eq!(agg.min_doc_len(), stats.min_doc_len());
    assert_eq!(agg.min_doc_len(), Some(4));
}

#[test]
fn aggregated_stats_sum_counts_and_take_the_smallest_minimum() {
    let mut first = FieldLengthStats::new();
    first.record_doc_len(0, 10, true);
    first.record_doc_len(1, 6, true);
    let mut no_norms = FieldLengthStats::new();
    no_norms.record_doc_len(0, 3, false);
    let mut second = FieldLengthStats::new();
    second.record_doc_len(0, 5, true);
    let agg = aggregate_field_stats(&[first, no_norms, second]).expect("segments");
    assert_eq!(
        agg,
        AggregatedFieldStats { doc_count: 4, total_terms: 21, min_doc_len: 5 }
    );
    assert_eq!(aggregate_field_stats(&[]), None);
    let empty = AggregatedFieldStats { doc_count: 1, total_terms: 3, min_doc_len: 0 };
    assert_eq!(empty.min_doc_len(), None);
}
