use cfgwow::string_map::StringMap;

#[test]
fn insert_then_get() {
    let mut m = StringMap::new();
    assert!(m.is_empty());
    assert_eq!(m.insert("b".to_string(), "2".to_string()), None);
    assert_eq!(m.insert("a".to_string(), "1".to_string()), None);
    assert_eq!(m.get("a").unwrap(), "1");
    assert_eq!(m.get("b").unwrap(), "2");
    assert_eq!(m.get("c"), None);
    assert!(m.contains_key("a"));
    assert!(!m.contains_key("c"));
    assert_eq!(m.len(), 2);
}

#[test]
fn insert_replaces_and_returns_old_value() {
    let mut m = StringMap::new();
    m.insert("k".to_string(), "old".to_string());
    assert_eq!(m.insert("k".to_string(), "new".to_string()), Some("old".to_string()));
    assert_eq!(m.get("k").unwrap(), "new");
    assert_eq!(m.len(), 1);
}

#[test]
fn entries_are_in_key_order() {
    let mut m = StringMap::new();
    for k in ["zeta", "alpha", "Beta", "alp", "\u{e9}t\u{e9}", "mid"] {
        m.insert(k.to_string(), format!("v-{k}"));
    }
    let keys: Vec<String> = (0..m.len()).map(|i| m.entry_at(i).0.clone()).collect();
    let mut expected: Vec<String> = keys.clone();
    expected.sort();
    assert_eq!(keys, expected);
    assert_eq!(keys[0], "Beta");
    assert_eq!(m.position("alp"), Some(1));
    assert_eq!(m.position("nope"), None);
}
