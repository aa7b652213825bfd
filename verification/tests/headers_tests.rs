use apaseh::headers::Headers;

#[test]
fn insert_then_get() {
    let mut h = Headers::new();
    h.insert("a".to_string(), "1".to_string());
    h.insert("b".to_string(), "2".to_string());
    assert_eq!(h.get("a").map(|s| s.as_str()), Some("1"));
    assert_eq!(h.get("b").map(|s| s.as_str()), Some("2"));
    assert_eq!(h.get("c"), None);
    assert!(h.contains_key("a"));
    assert!(!h.contains_key("A"));
}

#[test]
fn insert_replaces_in_place() {
    let mut h = Headers::new();
    h.insert("a".to_string(), "1".to_string());
    h.insert("b".to_string(), "2".to_string());
    h.insert("a".to_string(), "3".to_string());
    assert_eq!(h.len(), 2);
    assert_eq!(h.name_at(0), "a");
    assert_eq!(h.value_at(0), "3");
    assert_eq!(h.name_at(1), "b");
}

#[test]
fn clone_keeps_entries() {
    let mut h = Headers::new();
    h.insert("x".to_string(), "y".to_string());
    let c = h.clone();
    assert_eq!(c.len(), 1);
    assert_eq!(c.get("x").map(|s| s.as_str()), Some("y"));
}
