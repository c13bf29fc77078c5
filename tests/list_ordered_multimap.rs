use ordered_multimap::entry::{Entry, OccupiedEntry, VacantEntry};
use ordered_multimap::ListOrderedMultimap;
use std::collections::hash_map::RandomState;
use std::hash::BuildHasher;

fn check_bounds<Type: Send + Sync>() {}

#[test]
fn test_bounds() {
    check_bounds::<ListOrderedMultimap<(), ()>>();
    check_bounds::<OccupiedEntry<'static, (), ()>>();
    check_bounds::<VacantEntry<'static, (), ()>>();
}

#[test]
fn test_list_ordered_multimap_append() {
    let mut map = ListOrderedMultimap::new();
    assert_eq!(map.entry_len(&"key"), 0);

    let already_exists = map.append("key", "value1");
    assert!(!already_exists);
    assert_eq!(map.entry_len(&"key"), 1);

    let already_exists = map.append("key", "value2");
    assert!(already_exists);
    assert_eq!(map.entry_len(&"key"), 2);

    let mut iter = map.get_all(&"key");
    assert_eq!(iter.next(), Some(&"value1"));
    assert_eq!(iter.next(), Some(&"value2"));
    assert_eq!(iter.next(), None);
}

#[test]
fn test_list_ordered_multimap_clear() {
    let mut map = ListOrderedMultimap::new();
    map.insert("key", "value");
    map.insert("key2", "value");

    map.clear();

    assert!(map.is_empty());
    assert_eq!(map.get(&"key"), None);
    assert_eq!(map.get(&"key2"), None);
}

#[test]
fn test_list_ordered_multimap_contains_key() {
    let mut map = ListOrderedMultimap::new();
    assert!(!map.contains_key(&"key"));

    map.insert("key", "value");
    assert!(map.contains_key(&"key"));
}

#[test]
fn test_list_ordered_multimap_entry() {
    let mut map = ListOrderedMultimap::new();
    assert_eq!(map.get(&"key1"), None);

    let value = map.entry("key").or_insert("value1");
    assert_eq!(value, &"value1");
    assert_eq!(map.get(&"key"), Some(&"value1"));

    let value = map.entry("key").or_insert("value2");
    assert_eq!(value, &"value1");
    assert_eq!(map.get(&"key"), Some(&"value1"));
}

#[test]
fn test_list_ordered_multimap_entry_len() {
    let mut map = ListOrderedMultimap::new();
    assert_eq!(map.entry_len(&"key1"), 0);

    map.insert("key", "value");
    assert_eq!(map.entry_len(&"key"), 1);

    map.insert("key", "value");
    assert_eq!(map.entry_len(&"key"), 1);

    map.append("key", "value");
    assert_eq!(map.entry_len(&"key"), 2);

    map.insert("key", "value");
    assert_eq!(map.entry_len(&"key"), 1);

    map.remove(&"key");
    assert_eq!(map.entry_len(&"key"), 0);
}

#[test]
fn test_list_ordered_multimap_get() {
    let mut map = ListOrderedMultimap::new();
    assert_eq!(map.get(&"key"), None);

    map.insert("key", "value");
    assert_eq!(map.get(&"key"), Some(&"value"));
}

#[test]
fn test_list_ordered_multimap_get_all() {
    let mut map = ListOrderedMultimap::new();

    let mut iter = map.get_all(&"key");
    assert_eq!(iter.next(), None);

    map.insert("key", "value1");
    map.append("key", "value2");
    map.append("key", "value3");

    let mut iter = map.get_all(&"key");
    assert_eq!(iter.next(), Some(&"value1"));
    assert_eq!(iter.next(), Some(&"value2"));
    assert_eq!(iter.next(), Some(&"value3"));
    assert_eq!(iter.next(), None);
}

#[test]
fn test_list_ordered_multimap_get_mut() {
    let mut map = ListOrderedMultimap::new();
    assert_eq!(map.get_mut(&"key"), None);

    map.insert("key", "value");
    assert_eq!(map.get_mut(&"key"), Some(&mut "value"));
}

#[test]
fn test_list_ordered_multimap_insert() {
    let mut map = ListOrderedMultimap::new();
    assert!(!map.contains_key(&"key"));
    assert_eq!(map.get(&"key"), None);

    let value = map.insert("key", "value1");
    assert_eq!(value, None);
    assert!(map.contains_key(&"key"));
    assert_eq!(map.get(&"key"), Some(&"value1"));

    let value = map.insert("key", "value2");
    assert_eq!(value, Some("value1"));
    assert!(map.contains_key(&"key"));
    assert_eq!(map.get(&"key"), Some(&"value2"));
}

#[test]
fn test_list_ordered_multimap_insert_all() {
    let mut map = ListOrderedMultimap::new();
    assert!(!map.contains_key(&"key"));
    assert_eq!(map.get(&"key"), None);

    {
        let mut iter = map.insert_all("key", "value1");
        assert_eq!(iter.next(), None);
    }

    assert!(map.contains_key(&"key"));
    assert_eq!(map.get(&"key"), Some(&"value1"));

    {
        let mut iter = map.insert_all("key", "value2");
        assert_eq!(iter.next(), Some("value1"));
        assert_eq!(iter.next(), None);
    }

    assert!(map.contains_key(&"key"));
    assert_eq!(map.get(&"key"), Some(&"value2"));
}

#[test]
fn test_list_ordered_multimap_is_empty() {
    let mut map = ListOrderedMultimap::new();
    assert!(map.is_empty());

    map.insert("key", "value");
    assert!(!map.is_empty());

    map.remove(&"key");
    assert!(map.is_empty());
}

#[test]
fn test_list_ordered_multimap_iter() {
    let mut map = ListOrderedMultimap::new();

    let mut iter = map.iter();
    assert_eq!(iter.next(), None);

    map.insert("key1", "value1");
    map.insert("key2", "value2");
    map.append("key2", "value3");
    map.append("key1", "value4");

    let mut iter = map.iter();
    assert_eq!(iter.next(), Some((&"key1", &"value1")));
    assert_eq!(iter.next(), Some((&"key2", &"value2")));
    assert_eq!(iter.next(), Some((&"key2", &"value3")));
    assert_eq!(iter.next(), Some((&"key1", &"value4")));
    assert_eq!(iter.next(), None);
}

#[test]
fn test_list_ordered_multimap_keys() {
    let mut map = ListOrderedMultimap::new();

    let mut iter = map.keys();
    assert_eq!(iter.next(), None);

    map.insert("key1", "value1");
    map.insert("key2", "value2");
    map.insert("key1", "value3");
    map.insert("key3", "value4");

    let mut iter = map.keys();
    assert_eq!(iter.next(), Some(&"key1"));
    assert_eq!(iter.next(), Some(&"key2"));
    assert_eq!(iter.next(), Some(&"key3"));
    assert_eq!(iter.next(), None);
}

#[test]
fn test_list_ordered_multimap_keys_capacity() {
    let mut map = ListOrderedMultimap::new();
    assert_eq!(map.keys_capacity(), 0);
    map.insert("key", "value");
    assert!(map.keys_capacity() > 0);
}

#[test]
fn test_list_ordered_multimap_keys_len() {
    let mut map = ListOrderedMultimap::new();
    assert_eq!(map.keys_len(), 0);

    map.insert("key1", "value1");
    assert_eq!(map.keys_len(), 1);

    map.insert("key2", "value2");
    assert_eq!(map.keys_len(), 2);

    map.append("key1", "value3");
    assert_eq!(map.keys_len(), 2);

    map.remove(&"key1");
    assert_eq!(map.keys_len(), 1);

    map.remove(&"key2");
    assert_eq!(map.keys_len(), 0);
}

#[test]
fn test_list_ordered_multimap_new() {
    let map: ListOrderedMultimap<&str, &str> = ListOrderedMultimap::new();
    assert_eq!(map.keys_capacity(), 0);
    assert_eq!(map.keys_len(), 0);
    assert_eq!(map.values_capacity(), 0);
    assert_eq!(map.values_len(), 0);
}

#[test]
fn test_list_ordered_multimap_pack_to() {
    let mut map: ListOrderedMultimap<&str, &str> = ListOrderedMultimap::with_capacity(5, 5);
    map.pack_to_fit();
    assert_eq!(map.keys_capacity(), 0);
    assert_eq!(map.values_capacity(), 0);

    let mut map = ListOrderedMultimap::with_capacity(10, 10);

    map.insert("key1", "value1");
    map.insert("key2", "value2");
    map.append("key2", "value3");
    map.append("key1", "value4");

    map.pack_to(5, 5);
    assert_eq!(map.keys_capacity(), 5);
    assert_eq!(map.keys_len(), 2);
    assert_eq!(map.values_capacity(), 5);
    assert_eq!(map.values_len(), 4);

    let mut iter = map.iter();
    assert_eq!(iter.next(), Some((&"key1", &"value1")));
    assert_eq!(iter.next(), Some((&"key2", &"value2")));
    assert_eq!(iter.next(), Some((&"key2", &"value3")));
    assert_eq!(iter.next(), Some((&"key1", &"value4")));
    assert_eq!(iter.next(), None);
}

#[test]
fn test_list_ordered_multimap_pack_to_fit() {
    let mut map: ListOrderedMultimap<&str, &str> = ListOrderedMultimap::with_capacity(5, 5);
    map.pack_to_fit();
    assert_eq!(map.keys_capacity(), 0);
    assert_eq!(map.values_capacity(), 0);

    let mut map = ListOrderedMultimap::with_capacity(5, 5);

    map.insert("key1", "value1");
    map.insert("key2", "value2");
    map.append("key2", "value3");
    map.append("key1", "value4");

    map.pack_to_fit();
    assert_eq!(map.keys_capacity(), 2);
    assert_eq!(map.keys_len(), 2);
    assert_eq!(map.values_capacity(), 4);
    assert_eq!(map.values_len(), 4);

    let mut iter = map.iter();
    assert_eq!(iter.next(), Some((&"key1", &"value1")));
    assert_eq!(iter.next(), Some((&"key2", &"value2")));
    assert_eq!(iter.next(), Some((&"key2", &"value3")));
    assert_eq!(iter.next(), Some((&"key1", &"value4")));
    assert_eq!(iter.next(), None);
}

#[test]
fn test_list_ordered_multimap_remove() {
    let mut map = ListOrderedMultimap::new();
    assert_eq!(map.remove(&"key"), None);

    map.insert("key", "value1");
    map.append("key", "value2");
    assert_eq!(map.remove(&"key"), Some("value1"));
    assert_eq!(map.remove(&"key"), None);
}

#[test]
fn test_list_ordered_multimap_remove_all() {
    let mut map = ListOrderedMultimap::new();

    {
        let mut iter = map.remove_all(&"key");
        assert_eq!(iter.next(), None);
    }

    map.insert("key", "value1");
    map.append("key", "value2");

    {
        let mut iter = map.remove_all(&"key");
        assert_eq!(iter.next(), Some("value1"));
        assert_eq!(iter.next(), Some("value2"));
        assert_eq!(iter.next(), None);
    }

    let mut iter = map.remove_all(&"key");
    assert_eq!(iter.next(), None);
}

#[test]
fn test_list_ordered_multimap_reserve_keys() {
    let mut map: ListOrderedMultimap<&str, &str> = ListOrderedMultimap::new();
    assert_eq!(map.keys_capacity(), 0);

    map.reserve_keys(5);
    assert!(map.keys_capacity() >= 5);

    let mut map: ListOrderedMultimap<&str, &str> = ListOrderedMultimap::with_capacity(5, 5);
    assert_eq!(map.keys_capacity(), 5);

    map.reserve_keys(2);
    assert_eq!(map.keys_capacity(), 5);
}

#[test]
fn test_list_ordered_multimap_reserve_values() {
    let mut map: ListOrderedMultimap<&str, &str> = ListOrderedMultimap::new();
    assert_eq!(map.values_capacity(), 0);

    map.reserve_values(5);
    assert!(map.values_capacity() >= 5);

    let mut map: ListOrderedMultimap<&str, &str> = ListOrderedMultimap::with_capacity(5, 5);
    assert_eq!(map.values_capacity(), 5);

    map.reserve_values(2);
    assert_eq!(map.values_capacity(), 5);
}

#[test]
fn test_list_ordered_multimap_values() {
    let mut map = ListOrderedMultimap::new();

    let mut iter = map.iter();
    assert_eq!(iter.next(), None);

    map.insert("key1", "value1");
    map.insert("key2", "value2");
    map.append("key2", "value3");
    map.append("key1", "value4");

    let mut iter = map.values();
    assert_eq!(iter.next(), Some(&"value1"));
    assert_eq!(iter.next(), Some(&"value2"));
    assert_eq!(iter.next(), Some(&"value3"));
    assert_eq!(iter.next(), Some(&"value4"));
    assert_eq!(iter.next(), None);
}

#[test]
fn test_list_ordered_multimap_values_capacity() {
    let mut map = ListOrderedMultimap::new();
    assert_eq!(map.values_capacity(), 0);
    map.insert("key", "value");
    assert!(map.values_capacity() > 0);
}

#[test]
fn test_list_ordered_multimap_values_len() {
    let mut map = ListOrderedMultimap::new();
    assert_eq!(map.values_len(), 0);

    map.insert("key1", "value1");
    assert_eq!(map.values_len(), 1);

    map.insert("key2", "value2");
    assert_eq!(map.values_len(), 2);

    map.append("key1", "value3");
    assert_eq!(map.values_len(), 3);

    map.remove(&"key1");
    assert_eq!(map.values_len(), 1);

    map.remove(&"key2");
    assert_eq!(map.values_len(), 0);
}

#[test]
fn test_list_ordered_multimap_with_capacity() {
    let map: ListOrderedMultimap<&str, &str> = ListOrderedMultimap::with_capacity(1, 2);
    assert!(map.keys_capacity() >= 1);
    assert_eq!(map.keys_len(), 0);
    assert!(map.values_capacity() >= 2);
    assert_eq!(map.values_len(), 0);
}

#[test]
fn test_list_ordered_multimap_with_capacity_and_hasher() {
    let state = RandomState::new();
    let map: ListOrderedMultimap<&str, &str> =
        ListOrderedMultimap::with_capacity_and_hasher(1, 2, state);
    assert!(map.keys_capacity() >= 1);
    assert_eq!(map.keys_len(), 0);
    assert!(map.values_capacity() >= 2);
    assert_eq!(map.values_len(), 0);
}

#[test]
fn entry_api_occupied_and_vacant() {
    let mut map = ListOrderedMultimap::new();
    match map.entry("key") {
        Entry::Vacant(entry) => {
            assert_eq!(entry.key(), &"key");
            let mut occupied = entry.insert_entry(1);
            occupied.append(2);
            assert_eq!(occupied.len(), 2);
            assert_eq!(occupied.key(), &"key");
            assert_eq!(occupied.get(), &1);
            *occupied.get_mut() = 10;
            let mut values = occupied.iter();
            assert_eq!(values.next(), Some(&10));
            assert_eq!(values.next(), Some(&2));
            assert_eq!(values.next(), None);
        }
        Entry::Occupied(_) => panic!("key was absent"),
    }
    match map.entry("key") {
        Entry::Occupied(mut entry) => {
            assert_eq!(entry.insert(7), 10);
            assert_eq!(entry.len(), 1);
            let (key, value) = entry.remove_entry();
            assert_eq!(key, "key");
            assert_eq!(value, 7);
        }
        Entry::Vacant(_) => panic!("key was present"),
    }
    assert!(map.is_empty());
    assert_eq!(map.values_len(), 0);
}

#[test]
fn entry_api_or_insert_with_and_remove_all() {
    let mut map = ListOrderedMultimap::new();
    assert_eq!(*map.entry("a").or_insert_with(|| 5), 5);
    assert_eq!(*map.entry("a").or_insert_with(|| 6), 5);
    map.append("a", 8);
    let mut drained = match map.entry("a") {
        Entry::Occupied(entry) => entry.remove_all(),
        Entry::Vacant(_) => panic!("key was present"),
    };
    assert_eq!(drained.len(), 2);
    assert_eq!(drained.next(), Some(5));
    assert_eq!(drained.next(), Some(8));
    assert_eq!(drained.next(), None);
    assert!(!map.contains_key(&"a"));
    let entry = map.entry("b").or_insert_entry(3);
    assert_eq!(entry.get(), &3);
}

#[test]
fn global_order_scenario() {
    let mut map = ListOrderedMultimap::new();
    map.insert("k1", "v1");
    map.insert("k2", "v2");
    map.append("k2", "v3");
    map.append("k1", "v4");
    let mut iter = map.iter();
    assert_eq!(iter.len(), 4);
    assert_eq!(iter.next(), Some((&"k1", &"v1")));
    assert_eq!(iter.next(), Some((&"k2", &"v2")));
    assert_eq!(iter.next(), Some((&"k2", &"v3")));
    assert_eq!(iter.next(), Some((&"k1", &"v4")));
    assert_eq!(iter.next(), None);
    let mut keys = map.keys();
    assert_eq!(keys.next(), Some(&"k1"));
    assert_eq!(keys.next(), Some(&"k2"));
    assert_eq!(keys.next(), None);
}

#[test]
fn insert_discards_scenario() {
    let mut map = ListOrderedMultimap::new();
    map.insert("k", "v1");
    map.append("k", "v2");
    let mut discarded = map.insert_all("k", "v3");
    assert_eq!(discarded.next(), Some("v1"));
    assert_eq!(discarded.next(), Some("v2"));
    assert_eq!(discarded.next(), None);
    let mut values = map.get_all(&"k");
    assert_eq!(values.next(), Some(&"v3"));
    assert_eq!(values.next(), None);
    assert_eq!(map.values_len(), 1);
}

#[test]
fn empty_structure_scenario() {
    let mut map: ListOrderedMultimap<&str, &str> = ListOrderedMultimap::new();
    let mut removed = map.remove_all(&"k");
    assert_eq!(removed.len(), 0);
    assert_eq!(removed.next(), None);
    assert!(!map.contains_key(&"k"));
    assert_eq!(map.keys_len(), 0);
    assert_eq!(map.values_len(), 0);
}

#[test]
fn compaction_scenario() {
    let mut map = ListOrderedMultimap::with_capacity(5, 5);
    map.insert("k1", 1);
    map.insert("k2", 2);
    map.append("k1", 3);
    map.append("k2", 4);
    map.pack_to(5, 5);
    assert_eq!(map.keys_len(), 2);
    assert_eq!(map.values_len(), 4);
    assert_eq!(map.keys_capacity(), 5);
    assert_eq!(map.values_capacity(), 5);
    let mut iter = map.iter();
    assert_eq!(iter.next(), Some((&"k1", &1)));
    assert_eq!(iter.next(), Some((&"k2", &2)));
    assert_eq!(iter.next(), Some((&"k1", &3)));
    assert_eq!(iter.next(), Some((&"k2", &4)));
    assert_eq!(iter.next(), None);
}

#[test]
fn compaction_after_removals_keeps_links() {
    let mut map = ListOrderedMultimap::new();
    map.append("a", 1);
    map.append("b", 2);
    map.append("a", 3);
    map.append("c", 4);
    map.append("b", 5);
    map.remove(&"a");
    map.insert("c", 6);
    map.pack_to_fit();
    assert_eq!(map.keys_capacity(), 2);
    assert_eq!(map.values_capacity(), 3);
    let mut values = map.get_all(&"b");
    assert_eq!(values.next(), Some(&2));
    assert_eq!(values.next(), Some(&5));
    assert_eq!(values.next(), None);
    let mut values = map.get_all(&"b");
    assert_eq!(values.next_back(), Some(&5));
    assert_eq!(values.next_back(), Some(&2));
    assert_eq!(values.next_back(), None);
    map.append("b", 7);
    map.append("c", 8);
    let mut iter = map.iter();
    assert_eq!(iter.next(), Some((&"b", &2)));
    assert_eq!(iter.next(), Some((&"b", &5)));
    assert_eq!(iter.next(), Some((&"c", &6)));
    assert_eq!(iter.next(), Some((&"b", &7)));
    assert_eq!(iter.next(), Some((&"c", &8)));
    assert_eq!(iter.next(), None);
    let mut keys = map.keys();
    assert_eq!(keys.next(), Some(&"b"));
    assert_eq!(keys.next(), Some(&"c"));
    assert_eq!(keys.next(), None);
}

#[test]
fn count_matches_values_walked() {
    let mut map = ListOrderedMultimap::new();
    for i in 0..5 {
        map.append("x", i);
        map.append("y", i * 10);
    }
    map.insert("y", 99);
    let mut walked = 0;
    let mut values = map.get_all(&"x");
    while values.next().is_some() {
        walked += 1;
    }
    assert_eq!(map.entry_len(&"x"), walked);
    assert_eq!(map.entry_len(&"y"), 1);
    assert_eq!(map.values_len(), 6);
}

#[test]
fn removal_completeness() {
    let mut map = ListOrderedMultimap::new();
    map.append(1, "a");
    map.append(2, "b");
    map.append(1, "c");
    let mut removed = map.remove_all(&1);
    assert_eq!(removed.next_back(), Some("c"));
    assert_eq!(removed.next_back(), Some("a"));
    assert_eq!(removed.next_back(), None);
    assert!(!map.contains_key(&1));
    assert_eq!(map.get_all(&1).next(), None);
    assert_eq!(map.get(&2), Some(&"b"));
    assert_eq!(map.keys_len(), 1);
}

#[test]
fn abandoned_drain_still_removes() {
    let mut map = ListOrderedMultimap::new();
    map.append("k", 1);
    map.append("k", 2);
    map.append("k", 3);
    map.append("j", 4);
    {
        let mut drained = map.remove_all(&"k");
        assert_eq!(drained.next(), Some(1));
    }
    assert!(!map.contains_key(&"k"));
    assert_eq!(map.values_len(), 1);
    {
        let mut drained = map.insert_all("j", 5);
        assert_eq!(drained.len(), 1);
    }
    assert_eq!(map.get(&"j"), Some(&5));
    assert_eq!(map.values_len(), 1);
}

#[test]
fn reverse_iteration_meets_forward() {
    let mut map = ListOrderedMultimap::new();
    map.append("a", 1);
    map.append("b", 2);
    map.append("a", 3);
    map.append("a", 4);
    let mut values = map.get_all(&"a");
    assert_eq!(values.next(), Some(&1));
    assert_eq!(values.next_back(), Some(&4));
    assert_eq!(values.len(), 1);
    assert_eq!(values.next_back(), Some(&3));
    assert_eq!(values.next(), None);
    let mut iter = map.iter();
    assert_eq!(iter.next_back(), Some((&"a", &4)));
    assert_eq!(iter.next(), Some((&"a", &1)));
    assert_eq!(iter.len(), 2);
    let mut all = map.values();
    assert_eq!(all.next_back(), Some(&4));
    assert_eq!(all.next(), Some(&1));
    assert_eq!(all.len(), 2);
    let mut keys = map.keys();
    assert_eq!(keys.next_back(), Some(&"b"));
    assert_eq!(keys.len(), 1);
}

#[test]
fn get_mut_replaces_first_value() {
    let mut map = ListOrderedMultimap::new();
    map.append("k", 1);
    map.append("k", 2);
    if let Some(v) = map.get_mut(&"k") {
        *v = 11;
    }
    let mut values = map.get_all(&"k");
    assert_eq!(values.next(), Some(&11));
    assert_eq!(values.next(), Some(&2));
    assert_eq!(map.get_mut(&"missing"), None);
}

#[test]
fn distinct_keys_get_distinct_digests() {
    let mut map = ListOrderedMultimap::new();
    map.insert(String::from("alpha"), 1);
    map.insert(String::from("beta"), 2);
    assert_eq!(map.keys_len(), 2);
    assert_eq!(map.get("alpha"), Some(&1));
    assert_eq!(map.get("beta"), Some(&2));
    assert_eq!(map.get("gamma"), None);
}

#[test]
fn test_list_ordered_multimap_get_all_mut() {
    let mut map = ListOrderedMultimap::new();

    let mut iter = map.get_all(&"key");
    assert_eq!(iter.next(), None);

    map.insert("key", "value1");
    map.append("key", "value2");
    map.append("key", "value3");

    let mut iter = map.get_all_mut(&"key");
    assert_eq!(iter.next(), Some(&mut "value1"));
    assert_eq!(iter.next(), Some(&mut "value2"));
    assert_eq!(iter.next(), Some(&mut "value3"));
    assert_eq!(iter.next(), None);
}

#[test]
fn test_list_ordered_multimap_iter_mut() {
    let mut map = ListOrderedMultimap::new();

    let mut iter = map.iter_mut();
    assert_eq!(iter.next(), None);

    map.insert("key1", "value1");
    map.insert("key2", "value2");
    map.append("key2", "value3");
    map.append("key1", "value4");

    let mut iter = map.iter_mut();
    assert_eq!(iter.next(), Some((&"key1", &mut "value1")));
    assert_eq!(iter.next(), Some((&"key2", &mut "value2")));
    assert_eq!(iter.next(), Some((&"key2", &mut "value3")));
    assert_eq!(iter.next(), Some((&"key1", &mut "value4")));
    assert_eq!(iter.next(), None);
}

#[test]
fn test_list_ordered_multimap_values_mut() {
    let mut map = ListOrderedMultimap::new();

    let mut iter = map.iter();
    assert_eq!(iter.next(), None);

    map.insert("key1", "value1");
    map.insert("key2", "value2");
    map.append("key2", "value3");
    map.append("key1", "value4");

    let mut iter = map.values_mut();
    assert_eq!(iter.next(), Some(&mut "value1"));
    assert_eq!(iter.next(), Some(&mut "value2"));
    assert_eq!(iter.next(), Some(&mut "value3"));
    assert_eq!(iter.next(), Some(&mut "value4"));
    assert_eq!(iter.next(), None);
}

#[test]
fn mutable_iterators_write_through() {
    let mut map = ListOrderedMultimap::new();
    map.append("a", 1);
    map.append("b", 2);
    map.append("a", 3);
    {
        let mut iter = map.iter_mut();
        while let Some((_, v)) = iter.next() {
            *v *= 10;
        }
    }
    {
        let mut values = map.get_all_mut(&"a");
        assert_eq!(values.len(), 2);
        if let Some(v) = values.next() {
            *v += 1;
        }
        assert_eq!(values.iter().next(), Some(&30));
    }
    {
        let mut values = map.values_mut();
        assert_eq!(values.iter().len(), 3);
        while let Some(v) = values.next() {
            *v += 100;
        }
    }
    let mut iter = map.iter();
    assert_eq!(iter.next(), Some((&"a", &111)));
    assert_eq!(iter.next(), Some((&"b", &120)));
    assert_eq!(iter.next(), Some((&"a", &130)));
    assert_eq!(iter.next(), None);
    assert_eq!(map.hasher().hash_one("a"), map.hasher().hash_one("a"));
}

#[test]
fn drain_takes_every_pair_in_order() {
    let mut map = ListOrderedMultimap::new();
    map.append("a", 1);
    map.append("b", 2);
    map.append("a", 3);
    let mut drained = map.drain();
    assert!(map.is_empty());
    assert_eq!(map.values_len(), 0);
    assert_eq!(drained.len(), 3);
    assert_eq!(drained.next(), Some(("a", 1)));
    assert_eq!(drained.next_back(), Some(("a", 3)));
    assert_eq!(drained.next(), Some(("b", 2)));
    assert_eq!(drained.next(), None);
    map.append("c", 4);
    assert_eq!(map.get(&"c"), Some(&4));
}

#[test]
fn into_iter_takes_the_map_apart() {
    let mut map = ListOrderedMultimap::new();
    map.append('b', 20);
    map.append('a', 10);
    map.append('c', 30);
    map.append('b', 30);
    let mut pairs = map.into_iter();
    assert_eq!(pairs.len(), 4);
    assert_eq!(pairs.next(), Some(('b', 20)));
    assert_eq!(pairs.next(), Some(('a', 10)));
    assert_eq!(pairs.next(), Some(('c', 30)));
    assert_eq!(pairs.next(), Some(('b', 30)));
    assert_eq!(pairs.next(), None);
}

#[test]
fn extend_appends_in_arrival_order() {
    let mut map: ListOrderedMultimap<&str, i32> = ListOrderedMultimap::default();
    map.insert("x", 0);
    map.extend(vec![("y", 1), ("x", 2), ("y", 3)]);
    let mut iter = map.iter();
    assert_eq!(iter.next(), Some((&"x", &0)));
    assert_eq!(iter.next(), Some((&"y", &1)));
    assert_eq!(iter.next(), Some((&"x", &2)));
    assert_eq!(iter.next(), Some((&"y", &3)));
    assert_eq!(iter.next(), None);
    assert_eq!(map.keys_len(), 2);
}

#[test]
fn entry_and_modify_changes_only_present_keys() {
    let mut map = ListOrderedMultimap::new();
    map.append("k", 1);
    map.append("k", 2);
    let value = map.entry("k").and_modify(|v| *v += 40).or_insert(0);
    assert_eq!(*value, 41);
    let value = map.entry("absent").and_modify(|v| *v += 40).or_insert(7);
    assert_eq!(*value, 7);
    let mut values = map.get_all(&"k");
    assert_eq!(values.next(), Some(&41));
    assert_eq!(values.next(), Some(&2));
    assert_eq!(values.next(), None);
}

#[test]
fn entry_remove_entry_all_and_into_key() {
    let mut map = ListOrderedMultimap::new();
    map.append(String::from("k"), 1);
    map.append(String::from("k"), 2);
    let (key, mut values) = match map.entry(String::from("k")) {
        Entry::Occupied(entry) => entry.remove_entry_all(),
        Entry::Vacant(_) => panic!("key was present"),
    };
    assert_eq!(key, "k");
    assert_eq!(values.next(), Some(1));
    assert_eq!(values.next(), Some(2));
    assert_eq!(values.next(), None);
    match map.entry(String::from("k")) {
        Entry::Vacant(entry) => assert_eq!(entry.into_key(), "k"),
        Entry::Occupied(_) => panic!("key was removed"),
    }
    let entry = map.entry(String::from("n")).or_insert_with_entry(|| 9);
    assert_eq!(entry.len(), 1);
    assert_eq!(entry.remove(), 9);
    assert!(map.is_empty());
}

#[test]
fn entry_iter_mut_and_insert_all() {
    let mut map = ListOrderedMultimap::new();
    map.append("k", 1);
    map.append("k", 2);
    match map.entry("k") {
        Entry::Occupied(mut entry) => {
            {
                let mut values = entry.iter_mut();
                while let Some(v) = values.next() {
                    *v *= 3;
                }
            }
            let mut old = entry.insert_all(5);
            assert_eq!(old.next(), Some(3));
            assert_eq!(old.next(), Some(6));
            assert_eq!(old.next(), None);
            assert_eq!(entry.into_mut(), &mut 5);
        }
        Entry::Vacant(_) => panic!("key was present"),
    }
    assert_eq!(map.values_len(), 1);
}

#[test]
fn digest_calls_agree_with_key_calls() {
    let mut map = ListOrderedMultimap::new();
    let h = map.key_hash(&"k");
    assert!(!map.append_with_hash(h, "k", 1));
    assert!(map.append_with_hash(h, "k", 2));
    assert_eq!(map.get(&"k"), Some(&1));
    assert!(map.contains_hash(h));
    assert_eq!(map.entry_len_with_hash(h), 2);
    let mut old = map.insert_all_with_hash(h, "k", 3);
    assert_eq!(old.next(), Some(1));
    assert_eq!(old.next(), Some(2));
    assert_eq!(old.next(), None);
    assert_eq!(map.get_with_hash(h), Some(&3));
    *map.get_mut_with_hash(h).unwrap() = 4;
    let mut all = map.get_all_with_hash(h);
    assert_eq!(all.next(), Some(&4));
    assert_eq!(all.next(), None);
    let mut removed = map.remove_all_with_hash(h);
    assert_eq!(removed.next(), Some(4));
    assert!(!map.contains_key(&"k"));
    assert_eq!(map.get_with_hash(h), None);
}

#[test]
fn equal_digests_share_one_slot() {
    let mut map = ListOrderedMultimap::new();
    assert!(!map.append_with_hash(7, "first", 1));
    assert!(map.append_with_hash(7, "second", 2));
    assert_eq!(map.keys_len(), 1);
    let mut keys = map.keys();
    assert_eq!(keys.next(), Some(&"first"));
    assert_eq!(keys.next(), None);
    let mut iter = map.iter();
    assert_eq!(iter.next(), Some((&"first", &1)));
    assert_eq!(iter.next(), Some((&"first", &2)));
    assert_eq!(iter.next(), None);
}

#[test]
fn storage_stays_bounded_under_churn() {
    let mut map = ListOrderedMultimap::new();
    for i in 0..1000 {
        map.insert("k", i);
        map.append("j", i);
        map.remove(&"j");
    }
    assert_eq!(map.keys_len(), 1);
    assert_eq!(map.values_len(), 1);
    assert_eq!(map.get(&"k"), Some(&999));
    assert!(map.values_capacity() < 16);
    assert!(map.keys_capacity() < 16);
}

#[test]
fn from_pairs_and_double_ended_loans() {
    let mut map = ListOrderedMultimap::from_pairs(vec![("a", 1), ("b", 2), ("a", 3), ("b", 4)]);
    {
        let mut iter = map.iter_mut();
        if let Some((key, v)) = iter.next_back() {
            assert_eq!(key, &"b");
            *v = 40;
        }
        assert_eq!(iter.len(), 3);
    }
    {
        let mut values = map.values_mut();
        if let Some(v) = values.next_back() {
            assert_eq!(*v, 40);
        }
        if let Some(v) = values.next() {
            *v = 10;
        }
        assert_eq!(values.len(), 2);
    }
    {
        let mut values = map.get_all_mut(&"a");
        if let Some(v) = values.next_back() {
            *v = 30;
        }
        assert_eq!(values.next(), Some(&mut 10));
        assert_eq!(values.next(), None);
    }
    let iter = map.iter();
    let mut copy = iter.clone();
    assert_eq!(copy.next(), Some((&"a", &10)));
    assert_eq!(copy.next(), Some((&"b", &2)));
    assert_eq!(copy.next(), Some((&"a", &30)));
    assert_eq!(copy.next(), Some((&"b", &40)));
    assert_eq!(copy.next(), None);
    assert_eq!(iter.len(), 4);
}

#[test]
fn drains_can_be_read_before_taken() {
    let mut map = ListOrderedMultimap::new();
    map.append("k", 1);
    map.append("k", 2);
    let drained = map.insert_all("k", 3);
    let mut read = drained.iter();
    assert_eq!(read.next(), Some(&1));
    assert_eq!(read.next(), Some(&2));
    assert_eq!(read.next(), None);
    let mut all = map.drain();
    assert_eq!(all.iter().next(), Some(&("k", 3)));
    assert_eq!(all.next(), Some(("k", 3)));
    map.append("z", 9);
    let pairs = map.into_iter();
    assert_eq!(pairs.iter().next(), Some(&("z", 9)));
}

#[test]
fn equality_compares_counts_then_pairs() {
    let a = ListOrderedMultimap::from_pairs(vec![("a", 1), ("b", 2), ("a", 3)]);
    let mut b = ListOrderedMultimap::new();
    b.append("a", 1);
    b.append("b", 2);
    b.append("a", 3);
    assert!(a == b);
    let mut c = ListOrderedMultimap::new();
    c.append("b", 2);
    c.append("a", 1);
    c.append("a", 3);
    assert!(a != c);
    b.insert("b", 2);
    assert!(a != b);
    let mut d = ListOrderedMultimap::new();
    d.append("a", 1);
    d.append("b", 2);
    d.append("a", 4);
    assert!(a != d);
    let mut e = ListOrderedMultimap::new();
    e.append("a", 1);
    e.append("b", 2);
    e.append("b", 3);
    assert!(a != e);
}

#[test]
fn clone_is_independent() {
    let mut map = ListOrderedMultimap::new();
    map.append("a", 1);
    map.append("b", 2);
    let mut copy = map.clone();
    copy.append("a", 3);
    copy.remove(&"b");
    assert_eq!(map.values_len(), 2);
    assert_eq!(map.get(&"b"), Some(&2));
    let mut values = copy.get_all(&"a");
    assert_eq!(values.next(), Some(&1));
    assert_eq!(values.next(), Some(&3));
    assert_eq!(values.next(), None);
    assert!(!copy.contains_key(&"b"));
}
