use algokit::bidirectional_map::BiMap;

#[test]
fn put_then_get_in_both_directions() {
    let mut map = BiMap::new();
    map.put("google.com".to_string(), "1.2.3.4".to_string());
    assert_eq!(map.get_by_key("google.com"), "1.2.3.4");
    assert_eq!(map.get_by_value("1.2.3.4"), "google.com");
}

#[test]
fn missing_keys_and_values_are_reported_in_words() {
    let mut map = BiMap::new();
    map.put("google.com".to_string(), "1.2.3.4".to_string());
    assert_eq!(map.get_by_key("yahoo.com"), "Key not found");
    assert_eq!(map.get_by_value("9.9.9.9"), "Value not found");
    assert_eq!(BiMap::new().get_by_key(""), "Key not found");
}

#[test]
fn overwriting_a_key_forgets_its_old_value() {
    let mut map = BiMap::new();
    map.put("google.com".to_string(), "1.2.3.4".to_string());
    map.put("google.com".to_string(), "5.6.7.8".to_string());
    assert_eq!(map.get_by_key("google.com"), "5.6.7.8");
    assert_eq!(map.get_by_value("5.6.7.8"), "google.com");
    assert_eq!(map.get_by_value("1.2.3.4"), "Value not found");
}

#[test]
fn a_value_taken_by_a_second_key_points_to_the_second_key() {
    let mut map = BiMap::new();
    map.put("a".to_string(), "x".to_string());
    map.put("b".to_string(), "x".to_string());
    assert_eq!(map.get_by_value("x"), "b");
    // the first key still has its value
    assert_eq!(map.get_by_key("a"), "x");
    assert_eq!(map.get_by_key("b"), "x");
}

#[test]
fn putting_the_same_pair_again_keeps_it() {
    let mut map = BiMap::new();
    map.put("a".to_string(), "x".to_string());
    map.put("a".to_string(), "x".to_string());
    assert_eq!(map.get_by_key("a"), "x");
    assert_eq!(map.get_by_value("x"), "a");
}
