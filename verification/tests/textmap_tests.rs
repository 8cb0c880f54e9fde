use prometheus_radiator_exporter::openmetrics::MetricDatabase;
use prometheus_radiator_exporter::textmap::TextMap;

fn keys(map: &TextMap<i64>) -> Vec<String> {
    (0..map.len()).map(|i| map.key_at(i).clone()).collect()
}

fn values(map: &TextMap<i64>) -> Vec<i64> {
    (0..map.len()).map(|i| *map.value_at(i)).collect()
}

#[test]
fn a_new_map_holds_nothing() {
    let map: TextMap<i64> = TextMap::new();
    assert_eq!(map.len(), 0);
    assert!(!map.contains_key(""));
    assert!(!map.contains_key("a"));
    assert_eq!(map.get("a"), None);
    assert_eq!(map.search("a"), (false, 0));
}

#[test]
fn entries_stand_in_the_order_of_their_keys() {
    let mut map: TextMap<i64> = TextMap::new();
    for (key, value) in [("m", 1), ("b", 2), ("z", 3), ("", 4), ("ma", 5), ("B", 6), ("é", 7)] {
        map.insert(key.to_string(), value);
    }
    assert_eq!(map.len(), 7);
    assert_eq!(keys(&map), ["", "B", "b", "m", "ma", "z", "é"]);
    assert_eq!(values(&map), [4, 6, 2, 1, 5, 3, 7]);
}

#[test]
fn a_key_given_again_takes_the_new_value() {
    let mut map: TextMap<i64> = TextMap::new();
    map.insert("a".to_string(), 1);
    map.insert("b".to_string(), 2);
    map.insert("a".to_string(), 3);
    assert_eq!(map.len(), 2);
    assert_eq!(map.get("a"), Some(&3));
    assert_eq!(map.get("b"), Some(&2));
    assert_eq!(keys(&map), ["a", "b"]);
}

#[test]
fn searching_finds_the_place() {
    let mut map: TextMap<i64> = TextMap::new();
    for (key, value) in [("b", 1), ("d", 2), ("f", 3)] {
        map.insert(key.to_string(), value);
    }
    assert_eq!(map.search("a"), (false, 0));
    assert_eq!(map.search("b"), (true, 0));
    assert_eq!(map.search("c"), (false, 1));
    assert_eq!(map.search("d"), (true, 1));
    assert_eq!(map.search("da"), (false, 2));
    assert_eq!(map.search("f"), (true, 2));
    assert_eq!(map.search("g"), (false, 3));
    assert!(map.contains_key("d"));
    assert!(!map.contains_key("e"));
    assert_eq!(map.get("f"), Some(&3));
    assert_eq!(map.get("F"), None);
}

#[test]
fn a_new_key_goes_where_the_search_says() {
    let mut map: TextMap<i64> = TextMap::new();
    for key in ["b", "d", "f"] {
        map.insert(key.to_string(), 0);
    }
    let (found, at) = map.search("c");
    assert!(!found);
    map.insert_at(at, "c".to_string(), 9);
    assert_eq!(keys(&map), ["b", "c", "d", "f"]);
    assert_eq!(map.get("c"), Some(&9));
    let (found, at) = map.search("z");
    assert!(!found);
    map.insert_at(at, "z".to_string(), 8);
    assert_eq!(keys(&map), ["b", "c", "d", "f", "z"]);
    assert_eq!(values(&map), [0, 9, 0, 0, 8]);
}

#[test]
fn a_value_is_changed_in_place() {
    let mut map: TextMap<i64> = TextMap::new();
    map.insert("a".to_string(), 1);
    map.insert("b".to_string(), 2);
    *map.value_at_mut(1) += 40;
    assert_eq!(map.get("a"), Some(&1));
    assert_eq!(map.get("b"), Some(&42));
    assert_eq!(keys(&map), ["a", "b"]);
}

#[test]
fn the_default_registry_is_empty() {
    let db = MetricDatabase::default();
    assert_eq!(db.len(), 0);
    assert!(db.metrics().is_empty());
    let mut out = String::new();
    db.write(&mut out);
    assert_eq!(out, "");
}
