use surch_index::memory::MemoryUsage;

#[test]
fn memory_usage_total_sums_every_component() {
    let usage = MemoryUsage {
        postings_bytes: 1,
        prefix_postings_bytes: 2,
        subfield_values_bytes: 3,
        stored_fields_bytes: 4,
        field_stats_bytes: 5,
        term_stats_bytes: 6,
    };
    assert_eq!(usage.total_bytes(), 21);
    assert_eq!(MemoryUsage::default().total_bytes(), 0);
}

#[test]
fn memory_usage_total_saturates() {
    let usage = MemoryUsage { postings_bytes: u64::MAX - 1, term_stats_bytes: 5, ..MemoryUsage::default() };
    assert_eq!(usage.total_bytes(), u64::MAX);
}
