//! Concrete checks of the store's stated properties and edge cases.

use agent_memory_store::{MemoryEntry, MemoryStore};
use serde_json::Value;
use agent_memory_store::clock::micros_since_epoch;
use std::time::{Duration, SystemTime, UNIX_EPOCH};

fn j(text: &str) -> Value {
    serde_json::from_str(text).unwrap()
}

fn clock_micros() -> u64 {
    SystemTime::now().duration_since(UNIX_EPOCH).unwrap().as_micros() as u64
}

#[test]
fn store_then_peek_reads_back_value_and_tags() {
    let mut s = MemoryStore::new();
    s.store_at("fact", j(r#"{"a": [1, true, null]}"#), &["x", "y"], 42);
    let e = s.peek("fact").unwrap();
    assert_eq!(e.key, "fact");
    assert_eq!(e.value, j(r#"{"a": [1, true, null]}"#));
    assert_eq!(e.tags, vec!["x".to_string(), "y".to_string()]);
    assert_eq!(e.accessed_at, 42);
}

#[test]
fn store_at_new_key_starts_history() {
    let mut s = MemoryStore::new();
    s.store_at("k", Value::from(1), &[], 7);
    let e = s.peek("k").unwrap();
    assert_eq!(e.created_at, 7);
    assert_eq!(e.accessed_at, 7);
    assert_eq!(e.access_count, 0);
}

#[test]
fn overwrite_keeps_access_count_and_moves_access_time() {
    let mut s = MemoryStore::new();
    s.store_at("k", Value::from(1), &["old"], 10);
    s.get_at("k", 20);
    s.store_at("k", Value::from(2), &["new"], 30);
    let e = s.peek("k").unwrap();
    assert_eq!(e.value, Value::from(2));
    assert_eq!(e.tags, vec!["new".to_string()]);
    assert_eq!(e.created_at, 10);
    assert_eq!(e.accessed_at, 30);
    assert_eq!(e.access_count, 1);
    assert_eq!(s.len(), 1);
}

#[test]
fn get_at_touches_only_its_entry() {
    let mut s = MemoryStore::new();
    s.store_at("a", Value::from(1), &[], 1);
    s.store_at("b", Value::from(2), &[], 2);
    let e = s.get_at("a", 9).unwrap();
    assert_eq!(e.accessed_at, 9);
    assert_eq!(e.access_count, 1);
    assert_eq!(e.created_at, 1);
    let b = s.peek("b").unwrap();
    assert_eq!(b.accessed_at, 2);
    assert_eq!(b.access_count, 0);
}

#[test]
fn get_of_missing_key_changes_nothing() {
    let mut s = MemoryStore::new();
    s.store_at("a", Value::from(1), &[], 1);
    assert!(s.get_at("b", 5).is_none());
    assert_eq!(s.len(), 1);
    assert_eq!(s.peek("a").unwrap().accessed_at, 1);
}

#[test]
fn peek_does_not_touch() {
    let mut s = MemoryStore::new();
    s.store_at("a", Value::from(1), &[], 3);
    s.peek("a");
    s.peek("a");
    assert_eq!(s.peek("a").unwrap().access_count, 0);
    assert_eq!(s.peek("a").unwrap().accessed_at, 3);
}

#[test]
fn delete_leaves_other_entries() {
    let mut s = MemoryStore::new();
    s.store("a", Value::from(1), &[]);
    s.store("b", Value::from(2), &[]);
    assert!(s.delete("a"));
    assert!(!s.delete("a"));
    assert!(s.peek("a").is_none());
    assert_eq!(s.peek("b").unwrap().value, Value::from(2));
    assert_eq!(s.len(), 1);
}

#[test]
fn default_store_is_empty() {
    let s = MemoryStore::default();
    assert!(s.is_empty());
    assert_eq!(s.len(), 0);
    assert!(s.all().is_empty());
}

#[test]
fn keys_follow_str_order_beyond_ascii() {
    let mut s = MemoryStore::new();
    let names = ["zeta", "Zeta", "é", "e", "日本", "ab", "a", "aé", "ä"];
    for n in names.iter() {
        s.store(n, Value::from(1), &[]);
    }
    let mut expected: Vec<&str> = names.to_vec();
    expected.sort();
    assert_eq!(s.keys(), expected);
    let all: Vec<&str> = s.all().iter().map(|e| e.key.as_str()).collect();
    assert_eq!(all, expected);
}

#[test]
fn tags_follow_str_order_and_drop_repeats() {
    let mut s = MemoryStore::new();
    s.store("a", Value::from(1), &["b", "ä", "b", "A"]);
    s.store("b", Value::from(2), &["A", "zz"]);
    assert_eq!(s.tags(), vec!["A", "b", "zz", "ä"]);
}

#[test]
fn by_tag_matches_whole_tags_only() {
    let mut s = MemoryStore::new();
    s.store("a", Value::from(1), &["user"]);
    s.store("b", Value::from(2), &["us"]);
    let got: Vec<&str> = s.by_tag("us").iter().map(|e| e.key.as_str()).collect();
    assert_eq!(got, vec!["b"]);
    assert!(s.by_tag("use").is_empty());
}

#[test]
fn prune_lru_ties_keep_smaller_keys() {
    let mut s = MemoryStore::new();
    s.store_at("c", Value::from(1), &[], 5);
    s.store_at("a", Value::from(2), &[], 5);
    s.store_at("b", Value::from(3), &[], 5);
    assert_eq!(s.prune_lru(2), 1);
    assert_eq!(s.keys(), vec!["a", "b"]);
}

#[test]
fn prune_lru_at_exact_limit_is_no_op() {
    let mut s = MemoryStore::new();
    s.store_at("a", Value::from(1), &[], 1);
    s.store_at("b", Value::from(2), &[], 2);
    assert_eq!(s.prune_lru(2), 0);
    assert_eq!(s.keys(), vec!["a", "b"]);
}

#[test]
fn prune_lru_orders_by_access_not_creation() {
    let mut s = MemoryStore::new();
    s.store_at("old", Value::from(1), &[], 1);
    s.store_at("mid", Value::from(2), &[], 2);
    s.store_at("new", Value::from(3), &[], 3);
    s.get_at("old", 10);
    s.get_at("mid", 11);
    assert_eq!(s.prune_lru(1), 2);
    assert_eq!(s.keys(), vec!["mid"]);
}

#[test]
fn from_json_last_duplicate_wins() {
    let input = j(r#"[{"key": "k", "value": 1}, {"key": "k", "value": 2}, {"key": "k"}]"#);
    let s = MemoryStore::from_json(&input).unwrap();
    assert_eq!(s.len(), 1);
    assert_eq!(s.peek("k").unwrap().value, Value::Null);
}

#[test]
fn from_json_keeps_string_tags_only() {
    let e = MemoryEntry::from_json(&j(r#"{"key": "k", "tags": [1, "a", null, "b", ["c"]]}"#)).unwrap();
    assert_eq!(e.tags, vec!["a".to_string(), "b".to_string()]);
    let e = MemoryEntry::from_json(&j(r#"{"key": "k", "tags": "a"}"#)).unwrap();
    assert!(e.tags.is_empty());
}

#[test]
fn from_json_reads_times_as_seconds() {
    let e = MemoryEntry::from_json(&j(
        r#"{"key": "k", "created_at": 1.5, "accessed_at": -3, "access_count": "7"}"#,
    ))
    .unwrap();
    assert_eq!(e.created_at, 1_500_000);
    assert_eq!(e.accessed_at, 0);
    assert_eq!(e.access_count, 0);
    let e = MemoryEntry::from_json(&j(
        r#"{"key": "k", "created_at": 11, "accessed_at": 12.25, "access_count": 13}"#,
    ))
    .unwrap();
    assert_eq!(e.created_at, 11_000_000);
    assert_eq!(e.accessed_at, 12_250_000);
    assert_eq!(e.access_count, 13);
    let e = MemoryEntry::from_json(&j(r#"{"key": "k", "created_at": "1", "accessed_at": null}"#)).unwrap();
    assert_eq!(e.created_at, 0);
    assert_eq!(e.accessed_at, 0);
}

#[test]
fn from_json_reads_a_full_entry() {
    let e = MemoryEntry::from_json(&j(
        r#"{"key": "k", "value": [1], "tags": ["a", 1, "b"], "created_at": 2.5, "accessed_at": 3, "access_count": -1}"#,
    ))
    .unwrap();
    assert_eq!(e.key, "k");
    assert_eq!(e.value, j("[1]"));
    assert_eq!(e.tags, vec!["a".to_string(), "b".to_string()]);
    assert_eq!(e.created_at, 2_500_000);
    assert_eq!(e.accessed_at, 3_000_000);
    assert_eq!(e.access_count, 0);
}

#[test]
fn prune_lru_on_snapshot_times_keeps_smaller_key_on_tie() {
    let mut s = MemoryStore::from_json(&j(
        r#"[{"key": "y", "accessed_at": 5.0}, {"key": "x", "accessed_at": 5.0}, {"key": "w", "accessed_at": 1.0}]"#,
    ))
    .unwrap();
    assert_eq!(s.prune_lru(1), 2);
    assert_eq!(s.keys(), vec!["x"]);
}

#[test]
fn prune_lru_on_snapshot_times_ranks_by_access() {
    let mut s = MemoryStore::from_json(&j(
        r#"[{"key": "a", "created_at": 9.0, "accessed_at": 1.0},
            {"key": "b", "created_at": 1.0, "accessed_at": 9.0},
            {"key": "c", "created_at": 5.0, "accessed_at": 5.0}]"#,
    ))
    .unwrap();
    assert_eq!(s.prune_lru(2), 1);
    assert_eq!(s.keys(), vec!["b", "c"]);
    assert_eq!(s.peek("b").unwrap().accessed_at, 9_000_000);
}

#[test]
fn from_json_requires_string_key() {
    assert!(MemoryEntry::from_json(&j(r#"{"key": 5}"#)).is_none());
    assert!(MemoryEntry::from_json(&j(r#"[{"key": "k"}]"#)).is_none());
    assert!(MemoryEntry::from_json(&Value::Null).is_none());
}

#[test]
fn entry_to_json_writes_exactly_six_fields() {
    let mut s = MemoryStore::new();
    s.store_at("k", Value::from(true), &["a", "b"], 123);
    s.get_at("k", 456);
    let v = s.peek("k").unwrap().to_json();
    let obj = v.as_object().unwrap();
    assert_eq!(obj.len(), 6);
    assert_eq!(v["key"], Value::from("k"));
    assert_eq!(v["value"], Value::from(true));
    assert_eq!(v["tags"], j(r#"["a", "b"]"#));
    assert_eq!(v["created_at"], Value::from(0.000123));
    assert_eq!(v["accessed_at"], Value::from(0.000456));
    assert_eq!(v["access_count"], Value::from(1u64));
}

#[test]
fn store_json_round_trip_keeps_every_field() {
    let mut s = MemoryStore::new();
    s.store_at("b", j(r#"[1, 2]"#), &["t"], 5);
    s.store_at("a", Value::from("x"), &[], 6);
    s.get_at("b", 8);
    let restored = MemoryStore::from_json(&s.to_json()).unwrap();
    assert_eq!(restored.len(), s.len());
    for (x, y) in s.all().iter().zip(restored.all().iter()) {
        assert_eq!(x.key, y.key);
        assert_eq!(x.value, y.value);
        assert_eq!(x.tags, y.tags);
        assert_eq!(x.created_at, y.created_at);
        assert_eq!(x.accessed_at, y.accessed_at);
        assert_eq!(x.access_count, y.access_count);
    }
}

#[test]
fn to_json_lists_entries_by_key() {
    let mut s = MemoryStore::new();
    s.store("b", Value::from(2), &[]);
    s.store("a", Value::from(1), &[]);
    let v = s.to_json();
    assert_eq!(v[0]["key"], Value::from("a"));
    assert_eq!(v[1]["key"], Value::from("b"));
}

#[test]
fn load_json_counts_readable_items_only() {
    let mut s = MemoryStore::new();
    s.store("a", Value::from(1), &[]);
    let n = s.load_json(&j(r#"[{"key": "b"}, 3, {"nokey": 1}, {"key": "a", "value": 5}]"#));
    assert_eq!(n, 2);
    assert_eq!(s.len(), 2);
    assert_eq!(s.peek("a").unwrap().value, Value::from(5));
}

#[test]
fn store_reads_the_wall_clock() {
    let before = clock_micros();
    let mut s = MemoryStore::new();
    s.store("k", Value::from(1), &[]);
    let after = clock_micros();
    let e = s.peek("k").unwrap();
    assert!(before <= e.created_at && e.created_at <= after + 1);
    assert_eq!(e.created_at, e.accessed_at);
    s.get("k");
    let e = s.peek("k").unwrap();
    assert!(e.accessed_at >= e.created_at);
    assert!(e.accessed_at <= clock_micros() + 1);
}

#[test]
fn clock_reading_converts_to_micros() {
    assert_eq!(micros_since_epoch(Ok(Duration::new(2, 500_000_000))), 2_500_000);
    assert_eq!(micros_since_epoch(Ok(Duration::new(0, 999))), 1);
    assert_eq!(micros_since_epoch(Ok(Duration::new(0, 499))), 0);
    assert_eq!(micros_since_epoch(Ok(Duration::MAX)), u64::MAX);
    let before_epoch = UNIX_EPOCH.duration_since(SystemTime::now() + Duration::from_secs(1));
    assert_eq!(micros_since_epoch(before_epoch), 0);
}

#[test]
fn same_entries_give_same_snapshot() {
    let mut s1 = MemoryStore::new();
    s1.store_at("a", Value::from(1), &["x"], 5);
    s1.store_at("b", j(r#"{"n": [1]}"#), &[], 6);
    s1.store_at("c", Value::from("gone"), &[], 7);
    s1.delete("c");
    let mut s2 = MemoryStore::new();
    s2.store_at("b", j(r#"{"n": [1]}"#), &[], 6);
    s2.store_at("a", Value::from(1), &["x"], 5);
    assert_eq!(s1.to_json(), s2.to_json());
    assert_eq!(s1.to_json().to_string(), s2.to_json().to_string());
}
