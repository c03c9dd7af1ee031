use std::collections::HashMap;
use voxel_engine::prelude::HashMapExt;

#[test]
fn retain_filter_removes_and_returns_matching_values() {
    let mut hm: HashMap<i32, i32> = HashMap::new();
    hm.insert(1, 10);
    hm.insert(2, 20);
    hm.insert(3, 30);
    hm.insert(4, 40);

    let removed = hm.retain_filter(|v| *v >= 25);

    assert_eq!(removed.len(), 2);
    assert!(removed.contains(&30));
    assert!(removed.contains(&40));

    assert_eq!(hm.len(), 2);
    assert_eq!(hm.get(&1), Some(&10));
    assert_eq!(hm.get(&2), Some(&20));
    assert!(hm.get(&3).is_none());
    assert!(hm.get(&4).is_none());
}

#[test]
fn retain_filter_returns_empty_when_nothing_matches() {
    let mut hm: HashMap<&str, i32> = HashMap::new();
    hm.insert("a", 1);
    hm.insert("b", 2);

    let removed = hm.retain_filter(|&v| v > 10);

    assert!(removed.is_empty());
    assert_eq!(hm.len(), 2);
    assert_eq!(hm.get("a"), Some(&1));
    assert_eq!(hm.get("b"), Some(&2));
}

#[test]
fn retain_filter_removes_all_when_all_match() {
    let mut hm: HashMap<u8, u8> = HashMap::new();
    hm.insert(1, 5);
    hm.insert(2, 6);
    hm.insert(3, 7);

    let removed = hm.retain_filter(|&v| v >= 5);

    assert_eq!(removed.len(), 3);
    assert!(hm.is_empty());

    assert!(removed.contains(&5));
    assert!(removed.contains(&6));
    assert!(removed.contains(&7));
}

#[test]
fn retain_filter_works_with_non_copy_values() {
    let mut hm: HashMap<&str, String> = HashMap::new();
    hm.insert("m", "markus".to_string());
    hm.insert("e", "elon".to_string());
    hm.insert("j", "jeremy".to_string());

    let removed = hm.retain_filter(|s| s.starts_with('e'));

    assert_eq!(removed.len(), 1);
    assert_eq!(removed[0], "elon".to_string());
    assert_eq!(hm.len(), 2);
    assert!(hm.values().any(|v| v == "markus"));
    assert!(hm.values().any(|v| v == "jeremy"));
}

#[test]
fn retain_filter_on_empty_map() {
    let mut hm: HashMap<u64, u64> = HashMap::new();
    assert!(hm.retain_filter(|_| true).is_empty());
    assert!(hm.is_empty());
}
