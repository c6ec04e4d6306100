//! The table's observable behaviour on concrete scenarios: round trips,
//! deletion, missing keys, the load-factor resize, and enumeration.

use dope::data::Data;
use dope::HashTable;
use dope::TableError;

fn entry(k: &str, v: &str) -> Data<String, String> {
    Data { key: k.to_string(), value: v.to_string() }
}

fn no_present_empty_bucket(table: &HashTable<String, String>) -> bool {
    table.table.iter().all(|b| match b {
        Some(chain) => !chain.is_empty(),
        None => true,
    })
}

fn pairs_of(table: &HashTable<String, String>) -> Vec<(String, String)> {
    let mut out: Vec<(String, String)> = table
        .entries()
        .into_iter()
        .map(|d| (d.key, d.value))
        .collect();
    out.sort();
    out
}

#[test]
fn round_trip_unique_keys() {
    let mut t = HashTable::<String, String>::new(13);
    for i in 0..10 {
        t.insert(entry(&format!("key-{}", i), &format!("value-{}", i))).unwrap();
    }
    for i in 0..10 {
        assert_eq!(t.get(format!("key-{}", i)), Ok(format!("value-{}", i)));
    }
}

#[test]
fn duplicate_key_lookup_returns_most_recent() {
    let mut t = HashTable::<String, String>::new(13);
    t.insert(entry("k", "first")).unwrap();
    t.insert(entry("k", "second")).unwrap();
    assert_eq!(t.size, 2);
    assert_eq!(t.get("k".to_string()), Ok("second".to_string()));
}

#[test]
fn delete_removes_reachability() {
    let mut t = HashTable::<String, String>::new(13);
    t.insert(entry("gone", "1")).unwrap();
    t.insert(entry("stays", "2")).unwrap();
    assert_eq!(t.delete("gone".to_string()), Ok(()));
    assert_eq!(t.get("gone".to_string()), Err(TableError::KeyNotFound));
    assert_eq!(t.get("stays".to_string()), Ok("2".to_string()));
    assert_eq!(t.size, 1);
}

#[test]
fn delete_removes_every_duplicate_in_one_call() {
    let mut t = HashTable::<String, String>::new(13);
    t.insert(entry("k", "first")).unwrap();
    t.insert(entry("k", "second")).unwrap();
    assert_eq!(t.delete("k".to_string()), Ok(()));
    assert_eq!(t.get("k".to_string()), Err(TableError::KeyNotFound));
    assert_eq!(t.size, 0);
    // The fully emptied chain's bucket goes back to absent, not to a
    // present empty chain.
    assert!(t.table.iter().all(|b| b.is_none()));
}

#[test]
fn deleting_a_single_entry_bucket_clears_it_to_absent() {
    let mut t = HashTable::<String, String>::new(13);
    t.insert(entry("only", "1")).unwrap();
    assert!(t.table.iter().filter(|b| b.is_some()).count() == 1);
    assert_eq!(t.delete("only".to_string()), Ok(()));
    assert!(t.table.iter().all(|b| b.is_none()));
}

#[test]
fn buckets_are_absent_or_hold_an_entry() {
    let fresh = HashTable::<String, String>::new(13);
    assert!(fresh.table.iter().all(|b| b.is_none()));
    let mut t = HashTable::<String, String>::new(4);
    t.insert(entry("a", "1")).unwrap();
    t.insert(entry("e", "2")).unwrap();
    assert!(no_present_empty_bucket(&t));
    t.delete("a".to_string()).unwrap();
    assert!(no_present_empty_bucket(&t));
    t.insert(entry("b", "3")).unwrap();
    t.insert(entry("c", "4")).unwrap();
    assert!(no_present_empty_bucket(&t));
    t.delete("i".to_string()).unwrap_err();
    assert!(no_present_empty_bucket(&t));
}

#[test]
fn missing_key_fails_with_key_not_found() {
    let mut small = HashTable::<String, String>::new(1);
    assert_eq!(small.get("never".to_string()), Err(TableError::KeyNotFound));
    assert_eq!(small.delete("never".to_string()), Err(TableError::KeyNotFound));

    let mut t = HashTable::<String, String>::new(13);
    t.insert(entry("present", "1")).unwrap();
    assert_eq!(t.get("absent".to_string()), Err(TableError::KeyNotFound));
    assert_eq!(t.delete("absent".to_string()), Err(TableError::KeyNotFound));
    assert_eq!(t.size, 1);
}

#[test]
fn colliding_keys_share_a_chain() {
    // At four buckets, "a" (97) and "e" (101) both land in bucket 1.
    let mut t = HashTable::<String, String>::new(4);
    t.insert(entry("a", "1")).unwrap();
    t.insert(entry("e", "2")).unwrap();
    assert_eq!(t.capacity, 4);
    assert_eq!(t.get("a".to_string()), Ok("1".to_string()));
    assert_eq!(t.get("e".to_string()), Ok("2".to_string()));
    // "i" (105) addresses the same bucket but matches neither entry.
    assert_eq!(t.delete("i".to_string()), Err(TableError::KeyNotFound));
    // Deleting one collision partner leaves the other reachable.
    assert_eq!(t.delete("a".to_string()), Ok(()));
    assert_eq!(t.get("a".to_string()), Err(TableError::KeyNotFound));
    assert_eq!(t.get("e".to_string()), Ok("2".to_string()));
}

#[test]
fn resize_preserves_contents_and_doubles_capacity() {
    // Threshold 0.75: the third insert into four buckets triggers growth.
    let mut t = HashTable::<String, String>::new(4);
    t.insert(entry("a", "1")).unwrap();
    t.insert(entry("b", "2")).unwrap();
    assert_eq!(t.capacity, 4);
    t.insert(entry("c", "3")).unwrap();
    assert_eq!(t.capacity, 8);
    assert_eq!(t.size, 3);
    assert_eq!(t.get("a".to_string()), Ok("1".to_string()));
    assert_eq!(t.get("b".to_string()), Ok("2".to_string()));
    assert_eq!(t.get("c".to_string()), Ok("3".to_string()));
}

#[test]
fn resize_triggers_at_the_documented_load() {
    // With thirteen buckets the tenth entry reaches 3/4 occupancy.
    let mut t = HashTable::<String, String>::new(13);
    for i in 0..9 {
        t.insert(entry(&format!("k{}", i), "v")).unwrap();
        assert_eq!(t.capacity, 13);
    }
    t.insert(entry("k9", "v")).unwrap();
    assert_eq!(t.capacity, 26);
    for i in 0..10 {
        assert_eq!(t.get(format!("k{}", i)), Ok("v".to_string()));
    }
}

#[test]
fn concrete_scenario_capacity_four() {
    let mut t = HashTable::<String, String>::new(4);
    t.insert(entry("a", "1")).unwrap();
    t.insert(entry("b", "2")).unwrap();
    t.insert(entry("c", "3")).unwrap();
    assert_eq!(t.capacity, 8);
    assert_eq!(t.get("a".to_string()), Ok("1".to_string()));
    assert_eq!(t.get("b".to_string()), Ok("2".to_string()));
    assert_eq!(t.get("c".to_string()), Ok("3".to_string()));
    assert_eq!(t.delete("b".to_string()), Ok(()));
    assert_eq!(t.get("b".to_string()), Err(TableError::KeyNotFound));
    assert_eq!(t.get("z".to_string()), Err(TableError::KeyNotFound));
}

#[test]
fn enumeration_returns_exactly_the_live_entries() {
    let mut t = HashTable::<String, String>::new(4);
    t.insert(entry("a", "1")).unwrap();
    t.insert(entry("b", "2")).unwrap();
    t.insert(entry("c", "3")).unwrap();
    t.insert(entry("d", "4")).unwrap();
    t.delete("b".to_string()).unwrap();
    let got = pairs_of(&t);
    let want = vec![
        ("a".to_string(), "1".to_string()),
        ("c".to_string(), "3".to_string()),
        ("d".to_string(), "4".to_string()),
    ];
    assert_eq!(got, want);
    assert_eq!(t.entries().len(), t.size as usize);
}

#[test]
fn enumeration_of_empty_table_is_empty() {
    let t = HashTable::<String, String>::new(13);
    assert!(t.entries().is_empty());
    assert_eq!(t.size, 0);
    assert_eq!(t.capacity, 13);
}
