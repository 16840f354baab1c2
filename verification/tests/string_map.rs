use algokit::string_map::StringMap;

#[test]
fn insert_get_remove() {
    let mut m: StringMap<i32> = StringMap::new();
    assert_eq!(m.get("a"), None);
    assert_eq!(m.insert("a".to_string(), 1), None);
    assert_eq!(m.insert("b".to_string(), 2), None);
    assert_eq!(m.get("a"), Some(&1));
    assert_eq!(m.get("b"), Some(&2));
    assert_eq!(m.insert("a".to_string(), 3), Some(1));
    assert_eq!(m.get("a"), Some(&3));
    assert_eq!(m.remove("a"), Some(3));
    assert_eq!(m.remove("a"), None);
    assert_eq!(m.get("a"), None);
    assert_eq!(m.get("b"), Some(&2));
}

#[test]
fn keys_are_compared_by_their_characters() {
    let mut m: StringMap<&str> = StringMap::new();
    m.insert(String::from("key"), "first");
    let mut same = String::from("ke");
    same.push('y');
    assert_eq!(m.insert(same, "second"), Some("first"));
    assert_eq!(m.get("Key"), None);
    assert_eq!(m.get(""), None);
}
