use gfwsni::table::Table;

#[test]
fn table_keeps_the_order_of_its_keys() {
    let mut t = Table::new();
    assert!(t.insert("b".to_string(), "1".to_string()));
    assert!(t.insert("a".to_string(), "2".to_string()));
    assert!(!t.insert("b".to_string(), "3".to_string()));
    assert_eq!(t.len(), 2);
    assert_eq!(t.key(0), "b");
    assert_eq!(t.value(0), "3");
    assert_eq!(t.key(1), "a");
    assert_eq!(t.get("a").map(|s| s.as_str()), Some("2"));
    assert_eq!(t.get("c"), None);
}
