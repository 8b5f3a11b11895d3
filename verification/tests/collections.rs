use chromiumoxid::string_map::StringMap;
use chromiumoxid::string_set::StringSet;

#[test]
fn map_insert_get_remove() {
    let mut map: StringMap<u32> = StringMap::new();
    assert!(map.is_empty());
    assert_eq!(map.insert("a".to_string(), 1), None);
    assert_eq!(map.insert("b".to_string(), 2), None);
    assert_eq!(map.insert("a".to_string(), 3), Some(1));
    assert_eq!(map.len(), 2);
    assert_eq!(map.get("a"), Some(&3));
    assert_eq!(map.get("b"), Some(&2));
    assert_eq!(map.get("c"), None);
    assert!(map.contains_key("b"));
    assert!(!map.contains_key("B"));
    assert_eq!(map.key_at(0).map(|k| k.as_str()), Some("a"));
    assert_eq!(map.key_at(1).map(|k| k.as_str()), Some("b"));
    assert_eq!(map.key_at(2), None);
    assert_eq!(map.value_at(0), Some(&3));
    assert_eq!(map.value_at(2), None);
    assert_eq!(map.remove("a"), Some(3));
    assert_eq!(map.remove("a"), None);
    assert_eq!(map.len(), 1);
    assert_eq!(map.key_at(0).map(|k| k.as_str()), Some("b"));
    assert_eq!(map.value_at(0), Some(&2));
    assert!(!map.is_empty());
}

#[test]
fn set_holds_each_member_once() {
    let mut set = StringSet::new();
    assert!(set.is_empty());
    assert!(set.insert("load".to_string()));
    assert!(!set.insert("load".to_string()));
    assert!(set.insert("init".to_string()));
    assert_eq!(set.len(), 2);
    assert!(set.contains("load"));
    assert!(!set.contains("Load"));
    assert_eq!(set.get_at(0).map(|s| s.as_str()), Some("load"));
    assert_eq!(set.get_at(1).map(|s| s.as_str()), Some("init"));
    assert_eq!(set.get_at(2), None);
    assert!(set.remove("load"));
    assert!(!set.remove("load"));
    assert_eq!(set.len(), 1);
    set.clear();
    assert!(set.is_empty());
    assert_eq!(set.len(), 0);
}
