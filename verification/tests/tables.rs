use highway::directory::Directory;

fn sorted(mut keys: Vec<String>) -> Vec<String> {
    keys.sort();
    keys
}

#[test]
fn a_new_table_is_empty() {
    let table: Directory<u32> = Directory::new();
    assert!(table.keys().is_empty());
    assert!(!table.contains_key("a"));
    assert_eq!(table.get("a"), None);
}

#[test]
fn inserting_binds_and_rebinds() {
    let mut table: Directory<u32> = Directory::new();
    table.insert("a".to_string(), 1);
    table.insert("b".to_string(), 2);
    table.insert("a".to_string(), 3);
    assert_eq!(table.get("a"), Some(&3));
    assert_eq!(table.get("b"), Some(&2));
    assert!(table.contains_key("b"));
    assert_eq!(sorted(table.keys()), vec!["a".to_string(), "b".to_string()]);
}

#[test]
fn values_change_in_place() {
    let mut table: Directory<u32> = Directory::new();
    table.insert("a".to_string(), 1);
    table.insert("b".to_string(), 2);
    *table.get_mut("a").unwrap() += 10;
    assert_eq!(table.get("a"), Some(&11));
    assert_eq!(table.get("b"), Some(&2));
    assert!(table.get_mut("c").is_none());
}

#[test]
fn removing_unbinds_and_hands_back() {
    let mut table: Directory<u32> = Directory::new();
    table.insert("a".to_string(), 1);
    table.insert("b".to_string(), 2);
    assert_eq!(table.remove("a"), Some(1));
    assert_eq!(table.remove("a"), None);
    assert!(!table.contains_key("a"));
    table.insert("c".to_string(), 3);
    assert_eq!(table.get("b"), Some(&2));
    assert_eq!(table.get("c"), Some(&3));
    assert_eq!(sorted(table.keys()), vec!["b".to_string(), "c".to_string()]);
}

#[test]
fn clearing_unbinds_everything() {
    let mut table: Directory<u32> = Directory::new();
    for i in 0..100u32 {
        table.insert(i.to_string(), i);
    }
    assert_eq!(table.keys().len(), 100);
    table.clear();
    assert!(table.keys().is_empty());
    table.insert("7".to_string(), 8);
    assert_eq!(table.get("7"), Some(&8));
}

#[test]
fn freed_places_are_used_again() {
    let mut table: Directory<u32> = Directory::new();
    for i in 0..10u32 {
        table.insert(i.to_string(), i);
    }
    for i in (0..10u32).step_by(2) {
        assert_eq!(table.remove(&i.to_string()), Some(i));
    }
    for i in 10..20u32 {
        table.insert(i.to_string(), i);
    }
    for i in 0..20u32 {
        let expected = if i < 10 && i % 2 == 0 { None } else { Some(&i) };
        assert_eq!(table.get(&i.to_string()), expected);
    }
    assert_eq!(table.keys().len(), 15);
}
