use bib2::order::{relate, Relation};
use bib2::KeyedMap;

#[test]
fn keys_are_ordered_byte_by_byte() {
    assert_eq!(relate("a", "b"), Relation::Before);
    assert_eq!(relate("b", "a"), Relation::After);
    assert_eq!(relate("abc", "abc"), Relation::Same);
    assert_eq!(relate("", ""), Relation::Same);
    assert_eq!(relate("", "a"), Relation::Before);
    assert_eq!(relate("ab", "abc"), Relation::Before);
    assert_eq!(relate("abd", "abc"), Relation::After);
    assert_eq!(relate("Z", "a"), Relation::Before);
    assert_eq!(relate("z", "é"), Relation::Before);
    assert_eq!(relate("é", "e"), Relation::After);
}

#[test]
fn the_order_of_keys_is_that_of_strings() {
    let words = ["", "a", "B", "ab", "é", "e", "abc", "Zebra", "zebra", "ü", "€", "𝄞"];
    for x in words {
        for y in words {
            let expected = if x < y {
                Relation::Before
            } else if x > y {
                Relation::After
            } else {
                Relation::Same
            };
            assert_eq!(relate(x, y), expected);
        }
    }
}

#[test]
fn a_map_is_walked_in_ascending_order_of_its_keys() {
    let mut map: KeyedMap<u32> = KeyedMap::new();
    for (key, value) in [("m", 1), ("b", 2), ("z", 3), ("a", 4), ("c", 5), ("y", 6)] {
        map.insert(key.to_string(), value);
    }
    assert_eq!(map.len(), 6);
    let walk: Vec<(&str, u32)> =
        (0..map.len()).map(|at| (map.key_at(at).as_str(), *map.value_at(at))).collect();
    assert_eq!(walk, vec![("a", 4), ("b", 2), ("c", 5), ("m", 1), ("y", 6), ("z", 3)]);
}

#[test]
fn a_later_insertion_replaces_the_value_of_a_key() {
    let mut map: KeyedMap<String> = KeyedMap::new();
    map.insert("k".to_string(), "old".to_string());
    map.insert("j".to_string(), "other".to_string());
    map.insert("k".to_string(), "new".to_string());
    assert_eq!(map.len(), 2);
    assert_eq!(map.get("k").unwrap(), "new");
    assert_eq!(map.get("j").unwrap(), "other");
    assert_eq!(map.key_at(0), "j");
    assert_eq!(map.key_at(1), "k");
}

#[test]
fn a_key_that_was_not_inserted_is_not_found() {
    let mut map: KeyedMap<u8> = KeyedMap::new();
    assert!(map.get("a").is_none());
    assert!(!map.contains_key("a"));
    map.insert("b".to_string(), 1);
    map.insert("d".to_string(), 2);
    for key in ["", "a", "c", "e", "bb", "B"] {
        assert!(map.get(key).is_none());
        assert!(!map.contains_key(key));
    }
    assert!(map.contains_key("b"));
    assert_eq!(map.get("d"), Some(&2));
}

#[test]
fn many_keys_are_all_found_again() {
    let mut map: KeyedMap<usize> = KeyedMap::new();
    let keys: Vec<String> = (0..200).map(|n| format!("key{}", (n * 37) % 200)).collect();
    for (at, key) in keys.iter().enumerate() {
        map.insert(key.clone(), at);
    }
    assert_eq!(map.len(), 200);
    for (at, key) in keys.iter().enumerate() {
        assert_eq!(map.get(key), Some(&at));
    }
    for at in 1..map.len() {
        assert!(map.key_at(at - 1) < map.key_at(at));
    }
}
