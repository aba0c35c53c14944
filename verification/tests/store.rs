use agent_memory_store::{MemoryEntry, MemoryStore};
use serde_json::Value;

fn j(text: &str) -> Value {
    serde_json::from_str(text).unwrap()
}

#[test]
fn store_and_peek() {
    let mut s = MemoryStore::new();
    s.store("k", Value::from("val"), &["tag1"]);
    let e = s.peek("k").unwrap();
    assert_eq!(e.value, Value::from("val"));
}

#[test]
fn get_increments_access() {
    let mut s = MemoryStore::new();
    s.store("k", Value::from(1), &[]);
    s.get("k").unwrap();
    s.get("k").unwrap();
    assert_eq!(s.peek("k").unwrap().access_count, 2);
}

#[test]
fn missing_key_returns_none() {
    let mut s = MemoryStore::new();
    assert!(s.get("missing").is_none());
    assert!(s.peek("missing").is_none());
}

#[test]
fn overwrite_preserves_created_at() {
    let mut s = MemoryStore::new();
    s.store_at("k", Value::from(1), &[], 1_000_000);
    let t1 = s.peek("k").unwrap().created_at;
    s.store_at("k", Value::from(2), &[], 1_005_000);
    let t2 = s.peek("k").unwrap().created_at;
    assert!(((t1 as f64 - t2 as f64) / 1e6).abs() < 0.1);
    assert_eq!(t1, t2);
}

#[test]
fn delete_removes_entry() {
    let mut s = MemoryStore::new();
    s.store("k", Value::from(1), &[]);
    assert!(s.delete("k"));
    assert!(!s.contains("k"));
}

#[test]
fn delete_returns_false_when_missing() {
    let mut s = MemoryStore::new();
    assert!(!s.delete("nope"));
}

#[test]
fn by_tag_filters() {
    let mut s = MemoryStore::new();
    s.store("a", Value::from(1), &["user"]);
    s.store("b", Value::from(2), &["user", "profile"]);
    s.store("c", Value::from(3), &["system"]);
    assert_eq!(s.by_tag("user").len(), 2);
    assert_eq!(s.by_tag("system").len(), 1);
    assert_eq!(s.by_tag("unknown").len(), 0);
}

#[test]
fn all_sorted_by_key() {
    let mut s = MemoryStore::new();
    s.store("b", Value::from(2), &[]);
    s.store("a", Value::from(1), &[]);
    let all = s.all();
    assert_eq!(all[0].key, "a");
    assert_eq!(all[1].key, "b");
}

#[test]
fn len_increments() {
    let mut s = MemoryStore::new();
    assert_eq!(s.len(), 0);
    s.store("k", Value::from(1), &[]);
    assert_eq!(s.len(), 1);
}

#[test]
fn contains_returns_correct() {
    let mut s = MemoryStore::new();
    assert!(!s.contains("k"));
    s.store("k", Value::from(1), &[]);
    assert!(s.contains("k"));
}

#[test]
fn clear_empties_store() {
    let mut s = MemoryStore::new();
    s.store("k", Value::from(1), &[]);
    s.clear();
    assert!(s.is_empty());
}

#[test]
fn to_json_is_array() {
    let mut s = MemoryStore::new();
    s.store("k", Value::from(1), &[]);
    let j = s.to_json();
    assert!(j.is_array());
    assert_eq!(j.as_array().unwrap().len(), 1);
}

#[test]
fn entry_to_json_has_fields() {
    let mut s = MemoryStore::new();
    s.store("k", Value::from("v"), &["t"]);
    let e = s.peek("k").unwrap();
    let j = e.to_json();
    assert_eq!(j["key"], "k");
    assert_eq!(j["value"], "v");
    assert_eq!(j["tags"][0], "t");
}

#[test]
fn keys_sorted() {
    let mut s = MemoryStore::new();
    s.store("c", Value::from(3), &[]);
    s.store("a", Value::from(1), &[]);
    s.store("b", Value::from(2), &[]);
    assert_eq!(s.keys(), vec!["a", "b", "c"]);
}

#[test]
fn by_tag_sorted_by_key() {
    let mut s = MemoryStore::new();
    s.store("z", Value::from(1), &["t"]);
    s.store("a", Value::from(2), &["t"]);
    s.store("m", Value::from(3), &["t"]);
    let got: Vec<&str> = s.by_tag("t").iter().map(|e| e.key.as_str()).collect();
    assert_eq!(got, vec!["a", "m", "z"]);
}

#[test]
fn tags_are_distinct_and_sorted() {
    let mut s = MemoryStore::new();
    s.store("a", Value::from(1), &["user", "profile"]);
    s.store("b", Value::from(2), &["user", "system"]);
    assert_eq!(s.tags(), vec!["profile", "system", "user"]);
}

#[test]
fn tags_empty_when_no_tags() {
    let mut s = MemoryStore::new();
    s.store("a", Value::from(1), &[]);
    assert!(s.tags().is_empty());
}

#[test]
fn entry_from_json_round_trip() {
    let mut s = MemoryStore::new();
    s.store("k", j(r#"{"nested": [1, 2, 3]}"#), &["x", "y"]);
    s.get("k"); // bump access_count to 1
    let original = s.peek("k").unwrap().clone();
    let restored = MemoryEntry::from_json(&original.to_json()).unwrap();
    assert_eq!(restored.key, original.key);
    assert_eq!(restored.value, original.value);
    assert_eq!(restored.tags, original.tags);
    assert_eq!(restored.access_count, original.access_count);
    assert_eq!(restored.created_at, original.created_at);
    assert_eq!(restored.accessed_at, original.accessed_at);
}

#[test]
fn entry_from_json_requires_key() {
    assert!(MemoryEntry::from_json(&j(r#"{"value": 1}"#)).is_none());
    assert!(MemoryEntry::from_json(&Value::from("not an object")).is_none());
}

#[test]
fn entry_from_json_tolerates_missing_optional_fields() {
    let e = MemoryEntry::from_json(&j(r#"{"key": "k"}"#)).unwrap();
    assert_eq!(e.key, "k");
    assert_eq!(e.value, Value::Null);
    assert!(e.tags.is_empty());
    assert_eq!(e.access_count, 0);
    assert_eq!(e.created_at, 0);
}

#[test]
fn store_from_json_round_trip() {
    let mut s = MemoryStore::new();
    s.store("a", Value::from(1), &["t1"]);
    s.store("b", Value::from("two"), &["t2"]);
    let restored = MemoryStore::from_json(&s.to_json()).unwrap();
    assert_eq!(restored.len(), 2);
    assert_eq!(restored.peek("a").unwrap().value, Value::from(1));
    assert_eq!(restored.peek("b").unwrap().value, Value::from("two"));
    assert_eq!(restored.by_tag("t1").len(), 1);
}

#[test]
fn store_from_json_rejects_non_array() {
    assert!(MemoryStore::from_json(&j(r#"{"key": "k"}"#)).is_none());
}

#[test]
fn store_from_json_skips_bad_entries() {
    let input = j(r#"[
        {"key": "ok", "value": 1},
        {"value": "no key"},
        "garbage"
    ]"#);
    let restored = MemoryStore::from_json(&input).unwrap();
    assert_eq!(restored.len(), 1);
    assert!(restored.contains("ok"));
}

#[test]
fn load_json_merges_and_overwrites() {
    let mut s = MemoryStore::new();
    s.store("a", Value::from(1), &[]);
    let incoming = j(r#"[
        {"key": "a", "value": 99},
        {"key": "b", "value": 2}
    ]"#);
    let loaded = s.load_json(&incoming);
    assert_eq!(loaded, 2);
    assert_eq!(s.len(), 2);
    assert_eq!(s.peek("a").unwrap().value, Value::from(99));
    assert_eq!(s.peek("b").unwrap().value, Value::from(2));
}

#[test]
fn load_json_returns_zero_for_non_array() {
    let mut s = MemoryStore::new();
    assert_eq!(s.load_json(&j("{}")), 0);
    assert!(s.is_empty());
}

#[test]
fn prune_lru_keeps_most_recently_accessed() {
    let mut s = MemoryStore::new();
    s.store_at("a", Value::from(1), &[], 1_000);
    s.store_at("b", Value::from(2), &[], 6_000);
    s.store_at("c", Value::from(3), &[], 11_000);
    // Touch `a` so it becomes most-recently accessed.
    s.get_at("a", 16_000);
    let removed = s.prune_lru(2);
    assert_eq!(removed, 1);
    assert_eq!(s.len(), 2);
    assert!(s.contains("a"));
    assert!(s.contains("c"));
    assert!(!s.contains("b"));
}

#[test]
fn prune_lru_no_op_when_under_limit() {
    let mut s = MemoryStore::new();
    s.store("a", Value::from(1), &[]);
    assert_eq!(s.prune_lru(5), 0);
    assert_eq!(s.len(), 1);
}

#[test]
fn prune_lru_zero_clears() {
    let mut s = MemoryStore::new();
    s.store("a", Value::from(1), &[]);
    s.store("b", Value::from(2), &[]);
    assert_eq!(s.prune_lru(0), 2);
    assert!(s.is_empty());
}
