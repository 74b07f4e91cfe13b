//! The ordered map from text to text.

use raft_consensus::text_map::TextMap;

fn filled(pairs: &[(&str, &str)]) -> TextMap {
    let mut map = TextMap::new();
    for (key, value) in pairs {
        map.insert(key.to_string(), value.to_string());
    }
    map
}

#[test]
fn an_empty_map_holds_nothing() {
    let map = TextMap::default();
    assert_eq!(map, TextMap::new());
    assert_eq!(map.get(""), None);
    assert!(!map.contains_key("a"));
    assert!(map.entries().is_empty());
}

#[test]
fn inserting_replaces_and_removing_removes() {
    let mut map = TextMap::new();
    assert_eq!(map.insert("a".to_string(), "1".to_string()), None);
    assert_eq!(
        map.insert("a".to_string(), "2".to_string()),
        Some("1".to_string())
    );
    assert_eq!(map.get("a"), Some(&"2".to_string()));
    assert_eq!(map.remove("b"), None);
    assert_eq!(map.remove("a"), Some("2".to_string()));
    assert_eq!(map, TextMap::new());
}

#[test]
fn entries_stand_in_the_order_of_their_keys() {
    let map = filled(&[("b", "1"), ("é", "2"), ("", "3"), ("ab", "4"), ("a", "5"), ("Z", "6")]);
    let keys: Vec<&str> = map.entries().iter().map(|entry| entry.0.as_str()).collect();
    let mut sorted = keys.clone();
    sorted.sort();
    assert_eq!(keys, sorted);
    assert_eq!(keys, vec!["", "Z", "a", "ab", "b", "é"]);
}

#[test]
fn maps_with_the_same_entries_are_equal() {
    let a = filled(&[("x", "1"), ("y", "2"), ("z", "3")]);
    let mut b = filled(&[("z", "3"), ("w", "0"), ("y", "9"), ("x", "1")]);
    assert_ne!(a, b);
    b.remove("w");
    b.insert("y".to_string(), "2".to_string());
    assert_eq!(a, b);
    assert_eq!(format!("{:?}", a), format!("{:?}", b));
    assert_eq!(a.clone(), a);
}
