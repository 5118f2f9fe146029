use surch_index::string_map::StringMap;

#[test]
fn string_map_keeps_names_in_order_and_replaces_values() {
    let mut map = StringMap::new();
    map.insert("pear", 1);
    map.insert("apple", 2);
    map.insert("pear", 3);
    assert_eq!(map.keys(), vec!["apple", "pear"]);
    assert_eq!(map.get("pear"), Some(&3));
    assert!(map.contains("apple"));
    assert_eq!(map.remove("apple"), Some(2));
    assert_eq!(map.remove("apple"), None);
    assert!(!map.is_empty());
    assert_eq!(map.entries().len(), 1);
}
