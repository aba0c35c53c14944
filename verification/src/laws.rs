//! Properties of the store that span its operations, proved over the
//! specifications that the operations' contracts use.

use vstd::prelude::*;
use serde_json::Value;
use crate::entry::{
    EntryView, encodes_entry, entry_from_json_spec, strings_among, tags_field, count_field, retimed,
    null_value,
};
use crate::json::{
    json_as_array, json_as_duration, json_as_object, json_as_str, json_as_u64, json_object_fields,
};
use crate::clock::micros_held;
use crate::text::text_lt;
use crate::listing::{
    keys_ascending, listing_map, listing_keys, is_listing_of, texts_ascending, lemma_listing_push,
    lemma_listing_len, lemma_texts_ascending_unique, lemma_listing_at, tagged,
};
use crate::store::{
    stored, touched, loaded, parsed_count, encodes_store, encodes_listing, snapshot_of, MemoryStore,
    recency_before,
};

verus! {

/// The strings of an array that holds only strings are all of its items.
proof fn lemma_strings_among_all(items: Seq<Value>, ts: Seq<Seq<char>>)
    requires
        items.len() == ts.len(),
        forall|i: int| 0 <= i < items.len() ==> json_as_str(#[trigger] items[i]) == Some(ts[i]),
    ensures
        strings_among(items) == ts,
    decreases items.len(),
{
    if items.len() > 0 {
        lemma_strings_among_all(items.drop_last(), ts.drop_last());
        assert(ts =~= ts.drop_last().push(ts.last()));
    } else {
        assert(ts =~= Seq::<Seq<char>>::empty());
    }
}

/// Reading back what `MemoryEntry::to_json` wrote gives the same entry: key,
/// value, tags and access count as they were, and each time as it reads back
/// from the seconds written for it (`time_reread`).
pub proof fn law_entry_json_round_trip(v: Value, e: EntryView)
    requires
        encodes_entry(v, e),
    ensures
        entry_from_json_spec(v) == Some(retimed(e)),
{
    let obj = json_as_object(v)->0;
    let f = json_object_fields(obj);
    assert(f.contains_key("key"@));
    assert(f.contains_key("value"@));
    assert(f.contains_key("tags"@));
    assert(f.contains_key("created_at"@));
    assert(f.contains_key("accessed_at"@));
    assert(f.contains_key("access_count"@));
    let items = json_as_array(f["tags"@])->0;
    lemma_strings_among_all(items, e.tags);
    assert(tags_field(f) == e.tags);
    assert(count_field(f, "access_count"@) == e.access_count as u64);
}

/// The entries of `s` with their times as they read back from JSON.
spec fn retimed_all(s: Seq<EntryView>) -> Seq<EntryView> {
    s.map_values(|e: EntryView| retimed(e))
}

/// Rereading the times keeps the keys, so the listing stays ascending and its
/// map is the original map with each entry retimed.
proof fn lemma_listing_retimed(s: Seq<EntryView>)
    requires
        keys_ascending(s),
    ensures
        keys_ascending(retimed_all(s)),
        listing_map(retimed_all(s)) == listing_map(s).map_values(|e: EntryView| retimed(e)),
{
    let r = retimed_all(s);
    assert forall|i: int, j: int| 0 <= i < j < r.len() implies text_lt(#[trigger] r[i].key, #[trigger] r[j].key) by {
        assert(r[i].key == s[i].key && r[j].key == s[j].key);
    }
    let lm = listing_map(s);
    let lr = listing_map(r);
    assert forall|k: Seq<char>| lr.contains_key(k) <==> lm.contains_key(k) by {
        if lr.contains_key(k) {
            let i = choose|i: int| 0 <= i < r.len() && #[trigger] r[i].key == k;
            assert(s[i].key == k);
        }
        if lm.contains_key(k) {
            let i = choose|i: int| 0 <= i < s.len() && #[trigger] s[i].key == k;
            assert(r[i].key == k);
        }
    }
    assert forall|k: Seq<char>| #[trigger] lr.contains_key(k) implies lr[k] == retimed(lm[k]) by {
        let i = choose|i: int| 0 <= i < r.len() && #[trigger] r[i].key == k;
        lemma_listing_at(r, i);
        lemma_listing_at(s, i);
    }
    assert(lr =~= lm.map_values(|e: EntryView| retimed(e)));
}

/// Reading back the first `n` items of an encoded listing gives the map of its
/// first `n` entries, retimed.
proof fn lemma_loaded_prefix(
    m: Map<Seq<char>, EntryView>,
    items: Seq<Value>,
    s: Seq<EntryView>,
    n: int,
)
    requires
        keys_ascending(s),
        encodes_listing(items, s),
        0 <= n <= s.len(),
    ensures
        loaded(m, items.take(n)) == m.union_prefer_right(listing_map(retimed_all(s).take(n))),
        parsed_count(items.take(n)) == n,
    decreases n,
{
    let r = retimed_all(s);
    lemma_listing_retimed(s);
    if n == 0 {
        assert(listing_map(r.take(0)) =~= Map::<Seq<char>, EntryView>::empty());
        assert(m.union_prefer_right(Map::<Seq<char>, EntryView>::empty()) =~= m);
    } else {
        lemma_loaded_prefix(m, items, s, n - 1);
        assert(items.take(n).drop_last() =~= items.take(n - 1));
        law_entry_json_round_trip(items[n - 1], s[n - 1]);
        assert(r[n - 1] == retimed(s[n - 1]));
        let p = r.take(n - 1);
        assert(keys_ascending(p));
        assert forall|i: int| 0 <= i < p.len() implies text_lt(#[trigger] p[i].key, r[n - 1].key) by {
            assert(p[i] == r[i]);
        }
        lemma_listing_push(p, r[n - 1]);
        assert(p.push(r[n - 1]) =~= r.take(n));
        vstd::map_lib::lemma_union_insert_right(m, listing_map(p), r[n - 1].key, r[n - 1]);
    }
}

/// Loading the JSON snapshot of a store into an empty store restores that
/// store's map: every key, value, tag list and access count, and each time as
/// it reads back from the seconds written; every item is read.
pub proof fn law_store_json_round_trip(v: Value, m: Map<Seq<char>, EntryView>)
    requires
        encodes_store(v, m),
    ensures
        json_as_array(v) is Some,
        loaded(Map::empty(), json_as_array(v)->0) == m.map_values(|e: EntryView| retimed(e)),
        parsed_count(json_as_array(v)->0) == m.len(),
{
    let items = json_as_array(v)->0;
    let s = choose|s: Seq<EntryView>| is_listing_of(s, m) && encodes_listing(items, s);
    lemma_loaded_prefix(Map::empty(), items, s, s.len() as int);
    lemma_listing_retimed(s);
    let r = retimed_all(s);
    assert(items.take(items.len() as int) =~= items);
    assert(r.take(r.len() as int) =~= r);
    let mr = m.map_values(|e: EntryView| retimed(e));
    assert(Map::<Seq<char>, EntryView>::empty().union_prefer_right(mr) =~= mr);
    lemma_listing_len(s);
}

/// Loading the JSON snapshot of one store into another keeps the other's
/// entries, adds the snapshot's (times as they read back), and lets the snapshot
/// win on shared keys; the count returned is the snapshot's number of entries.
pub proof fn law_merge_snapshot(base: Map<Seq<char>, EntryView>, v: Value, m: Map<Seq<char>, EntryView>)
    requires
        encodes_store(v, m),
    ensures
        json_as_array(v) is Some,
        loaded(base, json_as_array(v)->0) == base.union_prefer_right(m.map_values(|e: EntryView| retimed(e))),
        parsed_count(json_as_array(v)->0) == m.len(),
{
    let items = json_as_array(v)->0;
    let s = choose|s: Seq<EntryView>| is_listing_of(s, m) && encodes_listing(items, s);
    lemma_loaded_prefix(base, items, s, s.len() as int);
    lemma_listing_retimed(s);
    let r = retimed_all(s);
    assert(items.take(items.len() as int) =~= items);
    assert(r.take(r.len() as int) =~= r);
    lemma_listing_len(s);
}

/// An item that does not read as an entry changes nothing when loaded.
pub proof fn law_load_skips_unreadable(m: Map<Seq<char>, EntryView>, items: Seq<Value>, x: Value)
    requires
        entry_from_json_spec(x) is None,
    ensures
        loaded(m, items.push(x)) == loaded(m, items),
        parsed_count(items.push(x)) == parsed_count(items),
{
    assert(items.push(x).drop_last() =~= items);
}

/// Of items sharing a key, the last one loaded is what the store holds.
pub proof fn law_load_last_wins(m: Map<Seq<char>, EntryView>, items: Seq<Value>, x: Value, e: EntryView)
    requires
        entry_from_json_spec(x) == Some(e),
    ensures
        loaded(m, items.push(x)).contains_key(e.key),
        loaded(m, items.push(x))[e.key] == e,
{
    assert(items.push(x).drop_last() =~= items);
}

/// After a store, the key reads back the stored value and tags at the store's
/// time, and every other key is unchanged.
pub proof fn law_store_then_read(
    m: Map<Seq<char>, EntryView>,
    key: Seq<char>,
    value: Value,
    tags: Seq<Seq<char>>,
    now: u64,
    other: Seq<char>,
)
    ensures
        stored(m, key, value, tags, now).contains_key(key),
        stored(m, key, value, tags, now)[key].key == key,
        stored(m, key, value, tags, now)[key].value == value,
        stored(m, key, value, tags, now)[key].tags == tags,
        stored(m, key, value, tags, now)[key].accessed_at == now,
        other != key ==> stored(m, key, value, tags, now).contains_key(other) == m.contains_key(other),
        other != key && m.contains_key(other) ==> stored(m, key, value, tags, now)[other] == m[other],
{
}

/// Overwriting a key keeps its creation time and access count; a new key is
/// created at the store's time with no accesses.
pub proof fn law_store_keeps_history(
    m: Map<Seq<char>, EntryView>,
    key: Seq<char>,
    value: Value,
    tags: Seq<Seq<char>>,
    now: u64,
)
    ensures
        m.contains_key(key) ==> stored(m, key, value, tags, now)[key].created_at == m[key].created_at,
        m.contains_key(key) ==> stored(m, key, value, tags, now)[key].access_count == m[key].access_count,
        !m.contains_key(key) ==> stored(m, key, value, tags, now)[key].created_at == now,
        !m.contains_key(key) ==> stored(m, key, value, tags, now)[key].access_count == 0,
{
}

/// Storing a new key adds one entry; overwriting one adds none.
pub proof fn law_store_len(
    m: Map<Seq<char>, EntryView>,
    key: Seq<char>,
    value: Value,
    tags: Seq<Seq<char>>,
    now: u64,
)
    requires
        m.dom().finite(),
    ensures
        stored(m, key, value, tags, now).len() == if m.contains_key(key) { m.len() } else { m.len() + 1 },
{
}

/// A read through `get` bumps the access count by one and moves the access
/// time, and leaves everything else as it was; reading a missing key changes nothing.
pub proof fn law_get_touches(m: Map<Seq<char>, EntryView>, key: Seq<char>, now: u64, other: Seq<char>)
    requires
        m.contains_key(key) ==> m[key].access_count < usize::MAX,
    ensures
        m.contains_key(key) ==> touched(m, key, now)[key].access_count == m[key].access_count + 1,
        m.contains_key(key) ==> touched(m, key, now)[key].accessed_at == now,
        m.contains_key(key) ==> touched(m, key, now)[key].value == m[key].value,
        m.contains_key(key) ==> touched(m, key, now)[key].tags == m[key].tags,
        m.contains_key(key) ==> touched(m, key, now)[key].created_at == m[key].created_at,
        touched(m, key, now).dom() == m.dom(),
        other != key && m.contains_key(other) ==> touched(m, key, now)[other] == m[other],
        !m.contains_key(key) ==> touched(m, key, now) == m,
{
    if m.contains_key(key) {
        assert(touched(m, key, now).dom() =~= m.dom());
    }
}

/// The keys that `keys()` returns are those of the entries that `all()`
/// returns, in the same order: any ascending list of a store's keys is that one.
pub proof fn law_keys_follow_listing(s: Seq<EntryView>, m: Map<Seq<char>, EntryView>, ks: Seq<Seq<char>>)
    requires
        is_listing_of(s, m),
        texts_ascending(ks),
        ks.to_set() == m.dom(),
    ensures
        ks == listing_keys(s),
{
    lemma_listing_len(s);
    let lk = listing_keys(s);
    assert forall|i: int, j: int| 0 <= i < j < lk.len() implies text_lt(#[trigger] lk[i], #[trigger] lk[j]) by {
        assert(lk[i] == s[i].key && lk[j] == s[j].key);
    }
    lemma_texts_ascending_unique(ks, lk);
}

/// Two stores that hold the same entries, however they were built, give the
/// same JSON snapshot (`MemoryStore::to_json` returns `snapshot_of` of its map).
pub proof fn law_same_entries_same_snapshot(s1: &MemoryStore, s2: &MemoryStore)
    requires
        s1@ == s2@,
    ensures
        snapshot_of(s1@) == snapshot_of(s2@),
{
}

/// Item `x` reads as an entry under key `k`.
pub open spec fn reads_key(x: Value, k: Seq<char>) -> bool {
    entry_from_json_spec(x) is Some && entry_from_json_spec(x)->0.key == k
}

/// After loading `items` into `m`, a key is present exactly where `m` had it or
/// some item reads as an entry under it; it holds the entry of the last such
/// item, and where no item reads under it, what `m` held.
pub proof fn law_loaded_key(m: Map<Seq<char>, EntryView>, items: Seq<Value>, k: Seq<char>)
    ensures
        loaded(m, items).contains_key(k) <==> (m.contains_key(k)
            || exists|i: int| 0 <= i < items.len() && #[trigger] reads_key(items[i], k)),
        forall|i: int|
            0 <= i < items.len() && #[trigger] reads_key(items[i], k)
                && (forall|j: int| i < j < items.len() ==> !reads_key(items[j], k))
                ==> loaded(m, items)[k] == entry_from_json_spec(items[i])->0,
        (forall|i: int| 0 <= i < items.len() ==> !reads_key(items[i], k)) && m.contains_key(k)
            ==> loaded(m, items)[k] == m[k],
    decreases items.len(),
{
    if items.len() > 0 {
        let rest = items.drop_last();
        let x = items.last();
        let n = items.len() - 1;
        law_loaded_key(m, rest, k);
        let before = loaded(m, rest);
        let after = loaded(m, items);
        let px = entry_from_json_spec(x);
        assert(after == match px { Some(e) => before.insert(e.key, e), None => before });
        assert forall|i: int| 0 <= i < n implies #[trigger] rest[i] == items[i] by {}
        if reads_key(x, k) {
            let e = px->0;
            assert(after == before.insert(k, e));
            assert(reads_key(items[n], k));
        } else {
            assert(after.contains_key(k) == before.contains_key(k));
            assert(before.contains_key(k) ==> after[k] == before[k]);
            if exists|i: int| 0 <= i < items.len() && #[trigger] reads_key(items[i], k) {
                let i = choose|i: int| 0 <= i < items.len() && #[trigger] reads_key(items[i], k);
                assert(i != n);
                assert(reads_key(rest[i], k));
            }
            assert forall|i: int|
                0 <= i < items.len() && #[trigger] reads_key(items[i], k)
                    && (forall|j: int| i < j < items.len() ==> !reads_key(items[j], k))
                    implies after[k] == entry_from_json_spec(items[i])->0 by {
                assert(i != n);
                assert(reads_key(rest[i], k));
                assert forall|j: int| i < j < rest.len() implies !reads_key(rest[j], k) by {
                    assert(rest[j] == items[j]);
                }
            }
            assert((forall|i: int| 0 <= i < items.len() ==> !reads_key(items[i], k)) ==>
                (forall|i: int| 0 <= i < rest.len() ==> !reads_key(rest[i], k))) by {
                if forall|i: int| 0 <= i < items.len() ==> !reads_key(items[i], k) {
                    assert forall|i: int| 0 <= i < rest.len() implies !reads_key(rest[i], k) by {
                        assert(rest[i] == items[i]);
                    }
                }
            }
        }
    }
}

/// Reading an object with a string `key` gives an entry, and every other field
/// is read on its own: `value` as it is, `tags` as the strings of an array,
/// each time as a number of seconds, `access_count` as an unsigned integer; a
/// field that is missing, or that holds nothing of its kind, gives its default
/// (`null`, no tags, 0), whatever the other fields hold.
pub proof fn law_entry_fields_read_alone(v: Value)
    requires
        json_as_object(v) is Some,
        json_object_fields(json_as_object(v)->0).contains_key("key"@),
        json_as_str(json_object_fields(json_as_object(v)->0)["key"@]) is Some,
    ensures
        entry_from_json_spec(v) is Some,
        ({
            let f = json_object_fields(json_as_object(v)->0);
            let e = entry_from_json_spec(v)->0;
            &&& e.key == json_as_str(f["key"@])->0
            &&& f.contains_key("value"@) ==> e.value == f["value"@]
            &&& !f.contains_key("value"@) ==> e.value == null_value()
            &&& !f.contains_key("tags"@) ==> e.tags.len() == 0
            &&& f.contains_key("tags"@) && json_as_array(f["tags"@]) is None ==> e.tags.len() == 0
            &&& !f.contains_key("created_at"@) ==> e.created_at == 0
            &&& f.contains_key("created_at"@) ==> e.created_at == match json_as_duration(f["created_at"@]) {
                Some(d) => micros_held(d),
                None => 0,
            }
            &&& !f.contains_key("accessed_at"@) ==> e.accessed_at == 0
            &&& f.contains_key("accessed_at"@) ==> e.accessed_at == match json_as_duration(f["accessed_at"@]) {
                Some(d) => micros_held(d),
                None => 0,
            }
            &&& !f.contains_key("access_count"@) ==> e.access_count == 0
            &&& f.contains_key("access_count"@) ==> e.access_count == match json_as_u64(f["access_count"@]) {
                Some(n) => n as usize,
                None => 0,
            }
        }),
{
}

/// The tags read from an array are its string items, in order: all of them
/// where every item is a string, none where no item is.
pub proof fn law_tags_are_string_items(items: Seq<Value>)
    ensures
        (forall|i: int| 0 <= i < items.len() ==> json_as_str(#[trigger] items[i]) is Some) ==> (
            strings_among(items).len() == items.len()
            && forall|i: int| 0 <= i < items.len() ==> Some(#[trigger] strings_among(items)[i]) == json_as_str(items[i])),
        (forall|i: int| 0 <= i < items.len() ==> json_as_str(#[trigger] items[i]) is None) ==> strings_among(items).len() == 0,
    decreases items.len(),
{
    if items.len() > 0 {
        let rest = items.drop_last();
        law_tags_are_string_items(rest);
        assert forall|i: int| 0 <= i < rest.len() implies rest[i] == items[i] by {}
        if forall|i: int| 0 <= i < items.len() ==> json_as_str(#[trigger] items[i]) is Some {
            assert forall|i: int| 0 <= i < rest.len() implies json_as_str(#[trigger] rest[i]) is Some by {
                assert(rest[i] == items[i]);
            }
            assert(json_as_str(items[items.len() - 1]) is Some);
        }
        if forall|i: int| 0 <= i < items.len() ==> json_as_str(#[trigger] items[i]) is None {
            assert forall|i: int| 0 <= i < rest.len() implies json_as_str(#[trigger] rest[i]) is None by {
                assert(rest[i] == items[i]);
            }
            assert(json_as_str(items[items.len() - 1]) is None);
        }
    }
}

/// An entry is listed under a tag exactly where that tag stands anywhere in its
/// tag list, and it is listed as it is.
pub proof fn law_tagged_is_any_tag(m: Map<Seq<char>, EntryView>, t: Seq<char>, k: Seq<char>)
    ensures
        tagged(m, t).contains_key(k) <==> (m.contains_key(k)
            && exists|i: int| 0 <= i < m[k].tags.len() && #[trigger] m[k].tags[i] == t),
        tagged(m, t).contains_key(k) ==> tagged(m, t)[k] == m[k],
{
}

/// Recency, by which `prune_lru` ranks entries, is the time of last access
/// alone, ties going to the smaller key: neither the access count nor the
/// creation time enters it.
pub proof fn law_recency_is_last_access(m: Map<Seq<char>, EntryView>, a: Seq<char>, b: Seq<char>)
    ensures
        recency_before(m, a, b) <==> (m[a].accessed_at > m[b].accessed_at
            || (m[a].accessed_at == m[b].accessed_at && text_lt(a, b))),
        a != b && m[a].accessed_at == m[b].accessed_at && m[a].access_count != m[b].access_count
            ==> (recency_before(m, a, b) <==> text_lt(a, b)),
{
}

} // verus!
