//! The public API used the way a downstream crate would use it.

use agent_memory_store::MemoryStore;
use serde_json::Value;

fn j(text: &str) -> Value {
    serde_json::from_str(text).unwrap()
}

#[test]
fn end_to_end_session_lifecycle() {
    let mut store = MemoryStore::new();

    // An agent records a few facts over a conversation.
    store.store("user_name", Value::from("Alice"), &["user", "profile"]);
    store.store("user_city", Value::from("Paris"), &["user", "location"]);
    store.store("session_goal", Value::from("plan a trip"), &["session"]);

    assert_eq!(store.len(), 3);
    assert_eq!(store.keys(), vec!["session_goal", "user_city", "user_name"]);

    // Grouped retrieval by tag returns deterministic, key-sorted output.
    let user_facts = store.by_tag("user");
    assert_eq!(user_facts.len(), 2);
    assert_eq!(user_facts[0].key, "user_city");
    assert_eq!(user_facts[1].key, "user_name");

    // All distinct tags are discoverable.
    assert_eq!(store.tags(), vec!["location", "profile", "session", "user"]);

    // Reading bumps access metadata.
    let before = store.peek("user_name").unwrap().access_count;
    store.get("user_name");
    assert_eq!(store.peek("user_name").unwrap().access_count, before + 1);
}

#[test]
fn persistence_round_trip_via_string() {
    let mut store = MemoryStore::new();
    store.store("a", j(r#"{"k": [1, 2, 3]}"#), &["t"]);
    store.store("b", Value::from("text"), &[]);
    store.get("a"); // create some access history to preserve

    // Serialize to a string, as a caller would when writing to a file.
    let serialized = store.to_json().to_string();

    // Parse it back and rebuild the store.
    let parsed: Value = serde_json::from_str(&serialized).unwrap();
    let restored = MemoryStore::from_json(&parsed).unwrap();

    assert_eq!(restored.len(), 2);
    assert_eq!(restored.peek("a").unwrap().value, j(r#"{"k": [1, 2, 3]}"#));
    assert_eq!(restored.peek("a").unwrap().tags, vec!["t".to_string()]);
    assert_eq!(restored.peek("b").unwrap().value, Value::from("text"));
    // Access metadata survives the round-trip.
    assert!(restored.peek("a").unwrap().access_count >= 1);
}

#[test]
fn merging_two_snapshots() {
    let mut base = MemoryStore::new();
    base.store("shared", Value::from("old"), &[]);
    base.store("only_base", Value::from(1), &[]);

    let mut other = MemoryStore::new();
    other.store("shared", Value::from("new"), &[]);
    other.store("only_other", Value::from(2), &[]);

    let loaded = base.load_json(&other.to_json());

    assert_eq!(loaded, 2);
    assert_eq!(base.len(), 3);
    // Incoming snapshot wins on conflicting keys.
    assert_eq!(base.peek("shared").unwrap().value, Value::from("new"));
    assert!(base.contains("only_base"));
    assert!(base.contains("only_other"));
}

#[test]
fn bounded_memory_with_prune_lru() {
    let mut store = MemoryStore::new();
    for i in 0..10u64 {
        store.store_at(&format!("k{i}"), Value::from(i), &[], 1_000 + i * 1_000);
    }
    assert_eq!(store.len(), 10);

    // Keep only the 3 most recently accessed entries.
    let removed = store.prune_lru(3);
    assert_eq!(removed, 7);
    assert_eq!(store.len(), 3);
    // The most recently stored keys should survive.
    assert!(store.contains("k9"));
    assert!(store.contains("k8"));
    assert!(store.contains("k7"));
    assert!(!store.contains("k0"));
}
