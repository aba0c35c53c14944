# agent-memory-store

A key-value memory store for AI agents: an agent keeps facts, preferences and
summaries across conversation turns, groups them with tags, tracks when and how
often each entry is read, saves and restores the whole store as JSON, and caps
its size by evicting the least recently accessed entries.

The library is written in Verus. Every operation carries a contract over a
mathematical model of the store (a map from key characters to entries), and the
contracts are proved.

## Layout

- `src/text.rs`: the lexicographic order of keys and tags (the order of Rust's
  `str` comparison) and a verified character-by-character comparison.
- `src/entry.rs`: `MemoryEntry`, its model, and its JSON form
  (`to_json` / `from_json`).
- `src/listing.rs`: entries listed in strictly ascending key order and the map
  such a listing holds; lemmas on inserting, replacing and removing entries.
- `src/store.rs`: `MemoryStore`, kept as a key-sorted vector of entries:
  store, get, peek, delete, listing, tags, JSON snapshots, LRU pruning.
- `src/laws.rs`: properties that span operations, such as the JSON round trip.
- `src/json.rs`, `src/clock.rs`: the trusted boundary to `serde_json` and to the
  system clock; each item states what it claims of the outside code.

## Times and the JSON format

In memory, `created_at` and `accessed_at` are microseconds since the Unix epoch
(`u64`, rounded to the nearest microsecond). In JSON they are seconds, written
as floating-point numbers; a snapshot is a JSON array of objects with the
fields `key`, `value`, `tags`, `created_at`, `accessed_at` and `access_count`.
When reading a snapshot, only `key` is required. A time is any JSON number of
seconds; one that is missing, not a number, negative or too large reads as 0.
`access_count` reads as 0 unless it is an unsigned integer. Non-string tags are
skipped.

`store_at` and `get_at` take the time as an argument; `store` and `get` read it
from the system clock.
