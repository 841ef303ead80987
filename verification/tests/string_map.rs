use godot_rust_goap_ecs::key_order::name_less;
use godot_rust_goap_ecs::string_map::StringMap;

#[test]
fn names_are_ordered_by_their_bytes() {
    assert!(name_less("a", "b"));
    assert!(name_less("a", "ab"));
    assert!(name_less("ab", "b"));
    assert!(!name_less("b", "a"));
    assert!(!name_less("a", "a"));
    assert!(name_less("", "a"));
    assert!(!name_less("a", ""));
    assert!(name_less("Z", "a"));
}

#[test]
fn insert_then_get_reads_back_the_value() {
    let mut m: StringMap<u32> = StringMap::new();
    assert!(m.is_empty());
    m.insert("b".to_string(), 2);
    m.insert("a".to_string(), 1);
    m.insert("c".to_string(), 3);
    assert_eq!(m.get("a"), Some(&1));
    assert_eq!(m.get("b"), Some(&2));
    assert_eq!(m.get("c"), Some(&3));
    assert_eq!(m.get("d"), None);
    assert_eq!(m.len(), 3);
    m.insert("b".to_string(), 20);
    assert_eq!(m.get("b"), Some(&20));
    assert_eq!(m.len(), 3);
    assert!(m.contains_key("c"));
    assert!(!m.contains_key("z"));
}

#[test]
fn entries_are_kept_sorted() {
    let mut m: StringMap<bool> = StringMap::new();
    for name in ["delta", "alpha", "charlie", "bravo"] {
        m.insert(name.to_string(), true);
    }
    let names: Vec<&str> = m.as_entries().iter().map(|e| e.0.as_str()).collect();
    assert_eq!(names, vec!["alpha", "bravo", "charlie", "delta"]);
}

#[test]
fn remove_returns_the_old_value() {
    let mut m: StringMap<u32> = StringMap::new();
    m.insert("x".to_string(), 5);
    m.insert("y".to_string(), 6);
    assert_eq!(m.remove("x"), Some(5));
    assert_eq!(m.remove("x"), None);
    assert_eq!(m.get("x"), None);
    assert_eq!(m.get("y"), Some(&6));
    assert_eq!(m.len(), 1);
}

#[test]
fn extend_prefers_the_other_map() {
    let mut a: StringMap<bool> = StringMap::new();
    a.insert("k".to_string(), false);
    a.insert("only_a".to_string(), true);
    let mut b: StringMap<bool> = StringMap::new();
    b.insert("k".to_string(), true);
    b.insert("only_b".to_string(), false);
    a.extend(&b);
    assert_eq!(a.get("k"), Some(&true));
    assert_eq!(a.get("only_a"), Some(&true));
    assert_eq!(a.get("only_b"), Some(&false));
    assert_eq!(a.len(), 3);
}

#[test]
fn copies_are_equal() {
    let mut a: StringMap<u32> = StringMap::new();
    a.insert("one".to_string(), 1);
    a.insert("two".to_string(), 2);
    let b = a.duplicate();
    let c = a.clone();
    assert_eq!(a, b);
    assert_eq!(a, c);
}

#[test]
fn maps_with_the_same_entries_are_equal_whatever_the_order_of_insertion() {
    let mut a: StringMap<bool> = StringMap::new();
    a.insert("x".to_string(), true);
    a.insert("y".to_string(), false);
    let mut b: StringMap<bool> = StringMap::new();
    b.insert("y".to_string(), false);
    b.insert("x".to_string(), true);
    assert_eq!(a, b);
}
