use surch_index::subfield_column::{SubfieldColumn, ABSENT};

#[test]
fn absent_documents_read_as_none_not_empty() {
    let mut column = SubfieldColumn::default();
    column.set(2, "dupre".to_string());
    column.set(4, String::new());
    assert_eq!(column.get(0), None);
    assert_eq!(column.get(1), None);
    assert_eq!(column.get(2), Some("dupre"));
    assert_eq!(column.get(3), None);
    assert_eq!(column.get(4), Some(""));
    assert_eq!(column.get(5), None);
    assert_eq!(column.get(u32::MAX), None);
}

#[test]
fn setting_a_document_again_replaces_its_value() {
    let mut column = SubfieldColumn::default();
    column.set(0, "martin".to_string());
    column.set(0, "dupont".to_string());
    assert_eq!(column.get(0), Some("dupont"));
    assert_eq!(column.iter(), vec![(0, "dupont")]);
}

#[test]
fn iter_lists_present_values_in_doc_order() {
    let mut column = SubfieldColumn::default();
    column.set(3, "b".to_string());
    column.set(1, "a".to_string());
    column.set(5, "b".to_string());
    assert_eq!(column.iter(), vec![(1, "a"), (3, "b"), (5, "b")]);
}

#[test]
fn equal_values_share_one_code() {
    let mut column = SubfieldColumn::default();
    let first = column.intern("etienne".to_string());
    let other = column.intern("dupre".to_string());
    let again = column.intern("etienne".to_string());
    assert_eq!(first, 0);
    assert_eq!(other, 1);
    assert_eq!(again, first);
    assert_ne!(first, ABSENT);
}

#[test]
fn finalize_keeps_every_value_readable() {
    let mut column = SubfieldColumn::default();
    column.set(0, "x".to_string());
    column.set(2, "y".to_string());
    column.finalize();
    assert_eq!(column.get(0), Some("x"));
    assert_eq!(column.get(2), Some("y"));
    assert_eq!(column.iter(), vec![(0, "x"), (2, "y")]);
}

#[test]
fn memory_bytes_counts_dictionary_codes_and_lookup() {
    let header = std::mem::size_of::<Box<str>>() as u64;
    let mut column = SubfieldColumn::default();
    assert_eq!(column.memory_bytes(), 0);
    column.set(0, "a".to_string());
    column.set(2, "bc".to_string());
    column.set(1, "a".to_string());
    let dict = (header + 1) + (header + 2);
    let codes = 3 * 4;
    let lookup = (header + 4 + 16 + 1) + (header + 4 + 16 + 2);
    assert_eq!(column.memory_bytes(), dict + codes + lookup);
    column.finalize();
    assert_eq!(column.memory_bytes(), dict + codes);
}
