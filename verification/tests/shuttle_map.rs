use std::collections::hash_map::RandomState;
use std::hash::BuildHasher;

use moka::shuttle_map::ShuttleHashMap;

type StrMap = ShuttleHashMap<u32, String, RandomState>;

fn new_map() -> StrMap {
    ShuttleHashMap::with_num_segments_capacity_and_hasher(4, 100, RandomState::new())
}

fn s(x: &str) -> String {
    x.to_string()
}

#[test]
fn new_map_is_empty() {
    let m = new_map();
    assert_eq!(m.len(), 0);
    assert_eq!(m.checked_len(), Some(0));
    assert!(m.is_empty());
    assert_eq!(m.actual_num_segments(), 1);
    let m2: StrMap = ShuttleHashMap::with_num_segments_and_hasher(8, RandomState::new());
    assert!(m2.is_empty());
}

#[test]
fn insert_if_not_present_never_overwrites() {
    let mut m = new_map();
    assert_eq!(m.insert_if_not_present(42, 7, s("hello")), None);
    assert_eq!(m.insert_if_not_present(42, 7, s("world")), Some(s("hello")));
    assert_eq!(m.get(7, |k| *k == 42), Some(s("hello")));
    assert_eq!(m.len(), 1);
}

#[test]
fn lookups_are_per_hash_and_per_key() {
    let mut m = new_map();
    m.insert_if_not_present(1, 100, s("one"));
    m.insert_if_not_present(2, 100, s("two"));
    m.insert_if_not_present(3, 200, s("three"));
    assert!(m.contains_key(100, |k| *k == 2));
    assert!(!m.contains_key(100, |k| *k == 3));
    assert!(!m.contains_key(300, |_| true));
    assert_eq!(m.get(100, |k| *k == 1), Some(s("one")));
    assert_eq!(m.get(200, |k| *k == 3), Some(s("three")));
    assert_eq!(m.get(200, |k| *k == 1), None);
    assert_eq!(m.get_key_value_and(100, |k| *k == 2, |k, v| (*k, v.len())), Some((2, 3)));
    assert_eq!(
        m.get_key_value_and_then(100, |k| *k == 2, |_, v| if v.len() > 5 { Some(1) } else { None }),
        None
    );
    assert_eq!(m.get_key_value_and_then(100, |k| *k == 1, |k, _| Some(*k + 10)), Some(11));
    assert_eq!(m.len(), 3);
}

#[test]
fn get_returns_the_first_accepted_entry_of_a_bucket() {
    let mut m = new_map();
    m.insert_if_not_present(10, 5, s("a"));
    m.insert_if_not_present(20, 5, s("b"));
    assert_eq!(m.get(5, |_| true), Some(s("a")));
    assert_eq!(m.get(5, |k| *k > 10), Some(s("b")));
}

#[test]
fn insert_entry_and_replaces_or_adds() {
    let mut m = new_map();
    let r = m.insert_entry_and(1, 9, s("x"), |k, v| format!("{}={}", k, v));
    assert_eq!(r, "1=x");
    let r = m.insert_entry_and(1, 9, s("y"), |k, v| format!("{}={}", k, v));
    assert_eq!(r, "1=y");
    assert_eq!(m.get(9, |k| *k == 1), Some(s("y")));
    assert_eq!(m.len(), 1);
}

#[test]
fn insert_with_or_modify_inserts_then_modifies() {
    let mut m: ShuttleHashMap<u32, u32, RandomState> =
        ShuttleHashMap::with_num_segments_and_hasher(1, RandomState::new());
    m.insert_with_or_modify(4, 1, || 10, |_, v| v + 1);
    assert_eq!(m.get(1, |k| *k == 4), Some(10));
    m.insert_with_or_modify(4, 1, || 10, |_, v| v + 1);
    m.insert_with_or_modify(4, 1, || 10, |k, v| v + k);
    assert_eq!(m.get(1, |k| *k == 4), Some(15));
    assert_eq!(m.len(), 1);
}

#[test]
fn remove_moves_the_last_entry_into_the_gap() {
    let mut m: ShuttleHashMap<u32, u32, RandomState> =
        ShuttleHashMap::with_num_segments_and_hasher(1, RandomState::new());
    m.insert_if_not_present(1, 0, 10);
    m.insert_if_not_present(2, 0, 20);
    m.insert_if_not_present(3, 0, 30);
    assert_eq!(m.remove(0, |k| *k == 1), Some(10));
    assert_eq!(m.iter(), vec![(3, 30), (2, 20)]);
    assert_eq!(m.remove(0, |k| *k == 1), None);
    assert_eq!(m.remove(7, |_| true), None);
    assert_eq!(m.len(), 2);
}

#[test]
fn remove_entry_returns_key_and_value() {
    let mut m = new_map();
    m.insert_if_not_present(5, 50, s("five"));
    assert_eq!(m.remove_entry(50, |k| *k == 5), Some((5, s("five"))));
    assert_eq!(m.remove_entry(50, |k| *k == 5), None);
    assert!(m.is_empty());
    assert_eq!(m.len(), 0);
}

#[test]
fn remove_if_checks_the_condition() {
    let mut m = new_map();
    m.insert_if_not_present(1, 3, s("keep"));
    m.insert_if_not_present(2, 3, s("drop"));
    assert_eq!(m.remove_if(3, |k| *k == 1, |_, v| v == "drop"), None);
    assert_eq!(m.remove_if(3, |_| true, |_, v| v == "drop"), Some(s("drop")));
    assert_eq!(m.len(), 1);
    assert_eq!(m.get(3, |k| *k == 1), Some(s("keep")));
}

#[test]
fn remove_entry_if_and_sees_the_entry_before_removal() {
    let mut m = new_map();
    m.insert_if_not_present(8, 1, s("eight"));
    assert_eq!(m.remove_entry_if_and(1, |k| *k == 8, |_, v| v.is_empty(), |k, _| *k), None);
    assert_eq!(
        m.remove_entry_if_and(1, |k| *k == 8, |_, v| !v.is_empty(), |k, v| format!("{}:{}", k, v)),
        Some(s("8:eight"))
    );
    assert!(m.is_empty());
}

#[test]
fn keys_lists_every_key_for_segment_zero_only() {
    let mut m = new_map();
    m.insert_if_not_present(1, 10, s("a"));
    m.insert_if_not_present(2, 20, s("b"));
    m.insert_if_not_present(3, 10, s("c"));
    let mut keys = m.keys(0, |k| *k * 2).unwrap();
    keys.sort();
    assert_eq!(keys, vec![2, 4, 6]);
    assert!(m.keys(1, |k| *k).is_none());
}

#[test]
fn iter_clones_every_entry() {
    let mut m = new_map();
    m.insert_if_not_present(1, 10, s("a"));
    m.insert_if_not_present(2, 20, s("b"));
    let mut items = m.iter();
    items.sort();
    assert_eq!(items, vec![(1, s("a")), (2, s("b"))]);
}

#[test]
fn emptied_buckets_count_as_empty() {
    let mut m = new_map();
    m.insert_if_not_present(1, 10, s("a"));
    assert!(!m.is_empty());
    assert_eq!(m.remove(10, |k| *k == 1), Some(s("a")));
    assert!(m.is_empty());
    assert_eq!(m.len(), 0);
}

#[test]
fn repeated_stores_keep_one_entry_per_key() {
    let mut m = new_map();
    m.insert_entry_and(1, 4, s("a"), |_, _| ());
    m.insert_entry_and(1, 4, s("b"), |_, _| ());
    m.insert_if_not_present(1, 4, s("c"));
    m.insert_with_or_modify(1, 4, || s("d"), |_, v| format!("{}!", v));
    m.insert_entry_and(2, 4, s("e"), |_, _| ());
    let mut keys = m.keys(0, |k| *k).unwrap();
    keys.sort();
    assert_eq!(keys, vec![1, 2]);
    assert_eq!(m.get(4, |k| *k == 1), Some(s("b!")));
    assert_eq!(m.len(), 2);
}

#[test]
fn removing_a_stored_key_leaves_no_entry_for_it() {
    let mut m = new_map();
    m.insert_entry_and(6, 60, s("six"), |_, _| ());
    m.insert_entry_and(7, 60, s("seven"), |_, _| ());
    assert_eq!(m.remove(60, |k| *k == 6), Some(s("six")));
    assert!(!m.contains_key(60, |k| *k == 6));
    assert_eq!(m.get(60, |k| *k == 7), Some(s("seven")));
    assert_eq!(m.len(), 1);
}

#[test]
fn keys_hashed_by_one_hasher_stay_distinct_across_the_map() {
    let hasher = RandomState::new();
    let mut m: ShuttleHashMap<u32, u32, RandomState> =
        ShuttleHashMap::with_num_segments_and_hasher(1, RandomState::new());
    for k in [1u32, 2, 3, 1, 2, 1] {
        let h = hasher.hash_one(k);
        m.insert_if_not_present(k, h, k * 10);
    }
    assert_eq!(m.len(), 3);
    let mut keys = m.keys(0, |k| *k).unwrap();
    keys.sort();
    assert_eq!(keys, vec![1, 2, 3]);
    // The same key under two different hashes is two entries.
    m.insert_if_not_present(1, 7, 0);
    m.insert_if_not_present(1, 8, 0);
    assert_eq!(m.len(), 5);
}

#[test]
fn second_insert_of_a_present_key_changes_nothing() {
    let mut m = new_map();
    assert_eq!(m.insert_if_not_present(3, 30, s("first")), None);
    let before = m.iter();
    assert_eq!(m.insert_if_not_present(3, 30, s("second")), Some(s("first")));
    assert_eq!(m.iter(), before);
    assert_eq!(m.get(30, |k| *k == 3), Some(s("first")));
}
