use mini_express::StrMap;

#[test]
fn new_map_is_empty() {
    let m = StrMap::new();
    assert_eq!(m.len(), 0);
    assert!(m.is_empty());
    assert_eq!(m.get("a"), None);
    assert!(!m.contains_key("a"));
    assert_eq!(m.position("a"), None);
}

#[test]
fn set_adds_entries_in_order() {
    let mut m = StrMap::new();
    m.set("b", "2");
    m.set("a", "1");
    m.set("c", "3");
    assert_eq!(m.len(), 3);
    assert!(!m.is_empty());
    assert_eq!(m.key_at(0), "b");
    assert_eq!(m.value_at(0), "2");
    assert_eq!(m.key_at(1), "a");
    assert_eq!(m.value_at(1), "1");
    assert_eq!(m.key_at(2), "c");
    assert_eq!(m.value_at(2), "3");
    assert_eq!(m.get("a"), Some("1"));
    assert_eq!(m.get("b"), Some("2"));
    assert_eq!(m.get("c"), Some("3"));
    assert_eq!(m.get("d"), None);
    assert_eq!(m.position("c"), Some(2));
}

#[test]
fn set_overwrites_where_the_key_stands() {
    let mut m = StrMap::new();
    m.set("a", "1");
    m.set("b", "2");
    m.set("a", "9");
    assert_eq!(m.len(), 2);
    assert_eq!(m.key_at(0), "a");
    assert_eq!(m.value_at(0), "9");
    assert_eq!(m.key_at(1), "b");
    assert_eq!(m.value_at(1), "2");
    assert_eq!(m.get("a"), Some("9"));
}

#[test]
fn keys_are_case_sensitive() {
    let mut m = StrMap::new();
    m.set("Content-Type", "a");
    m.set("content-type", "b");
    assert_eq!(m.len(), 2);
    assert_eq!(m.get("Content-Type"), Some("a"));
    assert_eq!(m.get("content-type"), Some("b"));
    assert!(m.contains_key("Content-Type"));
    assert!(!m.contains_key("CONTENT-TYPE"));
}

#[test]
fn empty_key_and_empty_value_are_kept() {
    let mut m = StrMap::new();
    m.set("", "");
    assert_eq!(m.len(), 1);
    assert_eq!(m.get(""), Some(""));
}

#[test]
fn clone_keeps_the_entries() {
    let mut m = StrMap::new();
    m.set("x", "1");
    m.set("y", "2");
    let mut c = m.clone();
    assert_eq!(c.len(), 2);
    assert_eq!(c.key_at(0), "x");
    assert_eq!(c.value_at(1), "2");
    c.set("x", "changed");
    assert_eq!(m.get("x"), Some("1"));
    assert_eq!(c.get("x"), Some("changed"));
}
