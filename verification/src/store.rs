//! The memory store: entries kept in ascending key order.

use vstd::prelude::*;
use serde_json::Value;
use crate::entry::{MemoryEntry, EntryView, texts_view, encodes_entry, entry_from_json_spec};
use crate::json::{json_as_array, value_as_array, value_from_items};
use crate::listing::{
    keys_ascending, listed, listing_map, listing_keys, is_listing_of, texts_ascending, tagged,
    with_tag, lemma_listing_at, lemma_listing_len, lemma_listing_insert, lemma_listing_update,
    lemma_listing_remove, lemma_listing_with_tag, lemma_key_position_unique, lemma_listing_unique,
};
use crate::text::{
    text_lt, compare_text, TextOrder, lemma_text_lt_transitive, lemma_text_lt_irreflexive,
    lemma_text_lt_total,
};
use crate::clock::{now_micros, reading_micros, ClockReading};

verus! {

/// The characters of each `&str`, in order.
pub open spec fn strs_view(s: Seq<&str>) -> Seq<Seq<char>> {
    s.map_values(|t: &str| t@)
}

/// The views of a sequence of entries.
pub open spec fn entry_views(s: Seq<MemoryEntry>) -> Seq<EntryView> {
    s.map_values(|e: MemoryEntry| e@)
}

/// The views of a sequence of borrowed entries.
pub open spec fn entry_ref_views(s: Seq<&MemoryEntry>) -> Seq<EntryView> {
    s.map_values(|e: &MemoryEntry| e@)
}

/// The store after `store(key, value, tags)` at time `now`: the entry is
/// written anew, keeping the creation time and access count of an entry that
/// was there.
pub open spec fn stored(
    m: Map<Seq<char>, EntryView>,
    key: Seq<char>,
    value: Value,
    tags: Seq<Seq<char>>,
    now: u64,
) -> Map<Seq<char>, EntryView> {
    m.insert(
        key,
        EntryView {
            key,
            value,
            tags,
            created_at: if m.contains_key(key) { m[key].created_at } else { now },
            accessed_at: now,
            access_count: if m.contains_key(key) { m[key].access_count } else { 0 },
        },
    )
}

/// The store after a read of `key` at time `now` that updates access metadata.
pub open spec fn touched(
    m: Map<Seq<char>, EntryView>,
    key: Seq<char>,
    now: u64,
) -> Map<Seq<char>, EntryView> {
    if m.contains_key(key) {
        m.insert(
            key,
            EntryView {
                key: m[key].key,
                value: m[key].value,
                tags: m[key].tags,
                created_at: m[key].created_at,
                accessed_at: now,
                access_count: (m[key].access_count + 1) as usize,
            },
        )
    } else {
        m
    }
}

/// Append-and-update key-value memory store.
#[derive(Debug, Clone)]
pub struct MemoryStore {
    entries: Vec<MemoryEntry>,
}

impl View for MemoryStore {
    type V = Map<Seq<char>, EntryView>;

    open spec fn view(&self) -> Map<Seq<char>, EntryView> {
        listing_map(self.listing())
    }
}

impl MemoryStore {
    /// The entries of the store in ascending key order.
    pub closed spec fn listing(&self) -> Seq<EntryView> {
        entry_views(self.entries@)
    }

    /// The store's invariant: its listing is in strictly ascending key order.
    pub open spec fn wf(&self) -> bool {
        keys_ascending(self.listing())
    }

    /// A well-formed store lists its map, and has as many entries as keys.
    pub proof fn lemma_wf(&self)
        requires
            self.wf(),
        ensures
            is_listing_of(self.listing(), self@),
            self@.dom().finite(),
            self@.len() == self.listing().len(),
            forall|k: Seq<char>| #[trigger] self@.contains_key(k) ==> self@[k].key == k,
    {
        lemma_listing_len(self.listing());
        assert forall|k: Seq<char>| #[trigger] self@.contains_key(k) implies self@[k].key == k by {
            let i = choose|i: int| 0 <= i < self.listing().len() && #[trigger] self.listing()[i].key == k;
            lemma_listing_at(self.listing(), i);
        }
    }

    /// An empty store.
    pub fn new() -> (r: Self)
        ensures
            r.wf(),
            r@ == Map::<Seq<char>, EntryView>::empty(),
    {
        let r = MemoryStore { entries: Vec::new() };
        assert(r.listing() =~= Seq::<EntryView>::empty());
        assert(r@ =~= Map::<Seq<char>, EntryView>::empty());
        r
    }

    /// Where `key` is, or where it would go, by binary search.
    fn find(&self, key: &str) -> (r: Result<usize, usize>)
        requires
            self.wf(),
        ensures
            match r {
                Ok(i) => i < self.listing().len() && self.listing()[i as int].key == key@,
                Err(p) => {
                    &&& p <= self.listing().len()
                    &&& forall|j: int| 0 <= j < p ==> text_lt(#[trigger] self.listing()[j].key, key@)
                    &&& forall|j: int| p <= j < self.listing().len() ==> text_lt(key@, #[trigger] self.listing()[j].key)
                },
            },
    {
        let ghost s = self.listing();
        let mut lo: usize = 0;
        let mut hi: usize = self.entries.len();
        while lo < hi
            invariant
                s == self.listing(),
                keys_ascending(s),
                lo <= hi <= s.len() == self.entries.len(),
                forall|j: int| 0 <= j < lo ==> text_lt(#[trigger] s[j].key, key@),
                forall|j: int| hi <= j < s.len() ==> text_lt(key@, #[trigger] s[j].key),
            decreases hi - lo,
        {
            let mid = lo + (hi - lo) / 2;
            match compare_text(self.entries[mid].key.as_str(), key) {
                TextOrder::Before => {
                    assert forall|j: int| 0 <= j < mid + 1 implies text_lt(#[trigger] s[j].key, key@) by {
                        if j < mid {
                            lemma_text_lt_transitive(s[j].key, s[mid as int].key, key@);
                        }
                    }
                    lo = mid + 1;
                },
                TextOrder::Same => {
                    return Ok(mid);
                },
                TextOrder::After => {
                    assert forall|j: int| mid <= j < s.len() implies text_lt(key@, #[trigger] s[j].key) by {
                        if j > mid {
                            lemma_text_lt_transitive(key@, s[mid as int].key, s[j].key);
                        }
                    }
                    hi = mid;
                },
            }
        }
        Err(lo)
    }

    /// Writes `e` under its key, replacing any entry there.
    fn put(&mut self, e: MemoryEntry)
        requires
            old(self).wf(),
        ensures
            final(self).wf(),
            final(self)@ == old(self)@.insert(e.key@, e@),
    {
        let ghost s = self.listing();
        match self.find(e.key.as_str()) {
            Ok(i) => {
                proof {
                    lemma_listing_update(s, i as int, e@);
                }
                self.entries.set(i, e);
                assert(self.listing() =~= s.update(i as int, e@));
            },
            Err(p) => {
                let ghost ev = e@;
                proof {
                    let t = s.insert(p as int, ev);
                    assert forall|a: int, b: int| 0 <= a < b < t.len() implies text_lt(#[trigger] t[a].key, #[trigger] t[b].key) by {
                        if b < p {
                        } else if a > p {
                        } else if a == p {
                        } else if b == p {
                        } else {
                            assert(t[a] == s[a] && t[b] == s[b - 1]);
                        }
                    }
                    assert(!listed(s, ev.key)) by {
                        if listed(s, ev.key) {
                            let j = choose|j: int| 0 <= j < s.len() && #[trigger] s[j].key == ev.key;
                            lemma_text_lt_irreflexive(ev.key);
                        }
                    }
                    lemma_listing_insert(s, p as int, ev);
                }
                self.entries.insert(p, e);
                assert(self.listing() =~= s.insert(p as int, ev));
            },
        }
    }
}


/// Owned copies of the given texts, in order.
fn owned_texts(tags: &[&str]) -> (r: Vec<String>)
    ensures
        texts_view(r@) == strs_view(tags@),
{
    let mut r: Vec<String> = Vec::new();
    let mut i: usize = 0;
    while i < tags.len()
        invariant
            i <= tags@.len(),
            texts_view(r@) == strs_view(tags@.take(i as int)),
        decreases tags@.len() - i,
    {
        r.push(tags[i].to_owned());
        proof {
            assert(strs_view(tags@.take(i + 1)) =~= strs_view(tags@.take(i as int)).push(tags@[i as int]@));
            assert(texts_view(r@) =~= texts_view(r@.drop_last()).push(r@.last()@));
        }
        i = i + 1;
    }
    assert(tags@.take(tags@.len() as int) =~= tags@);
    r
}

impl MemoryStore {
    /// Store `value` under `key` at time `now`. Overwrites any existing entry,
    /// keeping its creation time and access count.
    pub fn store_at(&mut self, key: &str, value: Value, tags: &[&str], now: u64)
        requires
            old(self).wf(),
        ensures
            final(self).wf(),
            final(self)@ == stored(old(self)@, key@, value, strs_view(tags@), now),
    {
        let tag_list = owned_texts(tags);
        let ghost s = self.listing();
        let (created_at, access_count) = match self.find(key) {
            Ok(i) => {
                proof {
                    lemma_listing_at(s, i as int);
                }
                (self.entries[i].created_at, self.entries[i].access_count)
            },
            Err(p) => {
                proof {
                    if self@.contains_key(key@) {
                        let j = choose|j: int| 0 <= j < s.len() && #[trigger] s[j].key == key@;
                        lemma_text_lt_irreflexive(key@);
                    }
                }
                (now, 0)
            },
        };
        let e = MemoryEntry {
            key: key.to_owned(),
            value,
            tags: tag_list,
            created_at,
            accessed_at: now,
            access_count,
        };
        self.put(e);
    }

    /// Store `value` under `key`. Overwrites any existing entry, keeping its
    /// creation time and access count; the time is read from the clock.
    pub fn store(&mut self, key: &str, value: Value, tags: &[&str])
        requires
            old(self).wf(),
        ensures
            final(self).wf(),
            exists|now: u64| final(self)@ == stored(old(self)@, key@, value, strs_view(tags@), now),
            exists|reading: ClockReading|
                final(self)@ == stored(old(self)@, key@, value, strs_view(tags@), reading_micros(reading)),
    {
        let now = now_micros();
        self.store_at(key, value, tags, now);
    }

    /// Get an entry by key without updating access metadata.
    pub fn peek(&self, key: &str) -> (r: Option<&MemoryEntry>)
        requires
            self.wf(),
        ensures
            match r {
                Some(e) => self@.contains_key(key@) && e@ == self@[key@],
                None => !self@.contains_key(key@),
            },
    {
        let ghost s = self.listing();
        match self.find(key) {
            Ok(i) => {
                proof {
                    lemma_listing_at(s, i as int);
                }
                Some(&self.entries[i])
            },
            Err(_) => {
                proof {
                    if self@.contains_key(key@) {
                        let j = choose|j: int| 0 <= j < s.len() && #[trigger] s[j].key == key@;
                        lemma_text_lt_irreflexive(key@);
                    }
                }
                None
            },
        }
    }

    /// True if `key` exists.
    pub fn contains(&self, key: &str) -> (r: bool)
        requires
            self.wf(),
        ensures
            r == self@.contains_key(key@),
    {
        self.peek(key).is_some()
    }

    /// Get an entry by key at time `now`, updating its access metadata.
    pub fn get_at(&mut self, key: &str, now: u64) -> (r: Option<&MemoryEntry>)
        requires
            old(self).wf(),
            old(self)@.contains_key(key@) ==> old(self)@[key@].access_count < usize::MAX,
        ensures
            final(self).wf(),
            final(self)@ == touched(old(self)@, key@, now),
            match r {
                Some(e) => old(self)@.contains_key(key@) && e@ == final(self)@[key@],
                None => !old(self)@.contains_key(key@),
            },
    {
        let ghost s = self.listing();
        match self.find(key) {
            Ok(i) => {
                proof {
                    lemma_listing_at(s, i as int);
                }
                self.entries[i].accessed_at = now;
                self.entries[i].access_count = self.entries[i].access_count + 1;
                proof {
                    let ev = self.entries@[i as int]@;
                    lemma_listing_update(s, i as int, ev);
                    assert(self.listing() =~= s.update(i as int, ev));
                    lemma_listing_at(self.listing(), i as int);
                }
                Some(&self.entries[i])
            },
            Err(_) => {
                proof {
                    if self@.contains_key(key@) {
                        let j = choose|j: int| 0 <= j < s.len() && #[trigger] s[j].key == key@;
                        lemma_text_lt_irreflexive(key@);
                    }
                }
                None
            },
        }
    }

    /// Get an entry by key, updating its access metadata; the time is read
    /// from the clock.
    pub fn get(&mut self, key: &str) -> (r: Option<&MemoryEntry>)
        requires
            old(self).wf(),
            old(self)@.contains_key(key@) ==> old(self)@[key@].access_count < usize::MAX,
        ensures
            final(self).wf(),
            exists|now: u64| final(self)@ == touched(old(self)@, key@, now),
            exists|reading: ClockReading| final(self)@ == touched(old(self)@, key@, reading_micros(reading)),
            match r {
                Some(e) => old(self)@.contains_key(key@) && e@ == final(self)@[key@],
                None => !old(self)@.contains_key(key@),
            },
    {
        let now = now_micros();
        self.get_at(key, now)
    }

    /// Delete an entry. Returns `true` if the key existed.
    pub fn delete(&mut self, key: &str) -> (r: bool)
        requires
            old(self).wf(),
        ensures
            final(self).wf(),
            final(self)@ == old(self)@.remove(key@),
            r == old(self)@.contains_key(key@),
    {
        let ghost s = self.listing();
        match self.find(key) {
            Ok(i) => {
                proof {
                    lemma_listing_at(s, i as int);
                    lemma_listing_remove(s, i as int);
                }
                self.entries.remove(i);
                assert(self.listing() =~= s.remove(i as int));
                true
            },
            Err(_) => {
                proof {
                    if self@.contains_key(key@) {
                        let j = choose|j: int| 0 <= j < s.len() && #[trigger] s[j].key == key@;
                        lemma_text_lt_irreflexive(key@);
                    }
                    assert(self@.remove(key@) =~= self@);
                }
                false
            },
        }
    }

    /// The number of entries.
    pub fn len(&self) -> (r: usize)
        requires
            self.wf(),
        ensures
            r == self@.len(),
    {
        proof {
            self.lemma_wf();
        }
        self.entries.len()
    }

    /// True if the store holds no entry.
    pub fn is_empty(&self) -> (r: bool)
        requires
            self.wf(),
        ensures
            r == (self@.len() == 0),
            r == (self@ == Map::<Seq<char>, EntryView>::empty()),
    {
        proof {
            self.lemma_wf();
            if self@.len() == 0 {
                assert(self@.dom() =~= Set::<Seq<char>>::empty());
                assert(self@ =~= Map::<Seq<char>, EntryView>::empty());
            }
        }
        self.entries.len() == 0
    }

    /// Remove all entries.
    pub fn clear(&mut self)
        requires
            old(self).wf(),
        ensures
            final(self).wf(),
            final(self)@ == Map::<Seq<char>, EntryView>::empty(),
    {
        self.entries.clear();
        assert(self.listing() =~= Seq::<EntryView>::empty());
        assert(self@ =~= Map::<Seq<char>, EntryView>::empty());
    }
}

/// Whether an entry carries `tag`.
fn entry_has_tag(e: &MemoryEntry, tag: &str) -> (r: bool)
    ensures
        r == e@.tags.contains(tag@),
{
    let mut i: usize = 0;
    while i < e.tags.len()
        invariant
            i <= e.tags.len(),
            forall|j: int| 0 <= j < i ==> e@.tags[j] != tag@,
        decreases e.tags.len() - i,
    {
        if compare_text(e.tags[i].as_str(), tag) == TextOrder::Same {
            assert(e@.tags[i as int] == tag@);
            return true;
        }
        i = i + 1;
    }
    false
}

impl MemoryStore {
    /// All entries, sorted by key.
    pub fn all(&self) -> (r: Vec<&MemoryEntry>)
        requires
            self.wf(),
        ensures
            is_listing_of(entry_ref_views(r@), self@),
    {
        let ghost s = self.listing();
        let mut v: Vec<&MemoryEntry> = Vec::new();
        let mut i: usize = 0;
        while i < self.entries.len()
            invariant
                s == self.listing(),
                i <= self.entries.len() == s.len(),
                v@.len() == i,
                entry_ref_views(v@) == s.take(i as int),
            decreases self.entries.len() - i,
        {
            let ghost old_v = v@;
            v.push(&self.entries[i]);
            proof {
                assert(s[i as int] == self.entries@[i as int]@);
                assert(v@ == old_v.push(&self.entries@[i as int]));
                assert forall|j: int| 0 <= j < i + 1 implies #[trigger] entry_ref_views(v@)[j] == s.take(i + 1)[j] by {
                    if j < i {
                        assert(entry_ref_views(old_v)[j] == s.take(i as int)[j]);
                    }
                }
                assert(entry_ref_views(v@) =~= s.take(i + 1));
            }
            i = i + 1;
        }
        assert(s.take(s.len() as int) =~= s);
        v
    }

    /// Keys that currently exist, sorted.
    pub fn keys(&self) -> (r: Vec<&str>)
        requires
            self.wf(),
        ensures
            texts_ascending(strs_view(r@)),
            strs_view(r@).to_set() == self@.dom(),
            r@.len() == self@.len(),
    {
        let ghost s = self.listing();
        let mut v: Vec<&str> = Vec::new();
        let mut i: usize = 0;
        while i < self.entries.len()
            invariant
                s == self.listing(),
                i <= self.entries.len() == s.len(),
                v@.len() == i,
                strs_view(v@) == listing_keys(s).take(i as int),
            decreases self.entries.len() - i,
        {
            let ghost old_v = v@;
            let k = self.entries[i].key.as_str();
            v.push(k);
            proof {
                assert(s[i as int] == self.entries@[i as int]@);
                assert(k@ == listing_keys(s)[i as int]);
                assert(v@ == old_v.push(k));
                assert forall|j: int| 0 <= j < i + 1 implies #[trigger] strs_view(v@)[j] == listing_keys(s).take(i + 1)[j] by {
                    if j < i {
                        assert(strs_view(old_v)[j] == listing_keys(s).take(i as int)[j]);
                    }
                }
                assert(strs_view(v@) =~= listing_keys(s).take(i + 1));
            }
            i = i + 1;
        }
        proof {
            assert(listing_keys(s).take(s.len() as int) =~= listing_keys(s));
            lemma_listing_len(s);
        }
        v
    }

    /// Entries carrying `tag`, sorted by key.
    pub fn by_tag(&self, tag: &str) -> (r: Vec<&MemoryEntry>)
        requires
            self.wf(),
        ensures
            is_listing_of(entry_ref_views(r@), tagged(self@, tag@)),
    {
        let ghost s = self.listing();
        let mut v: Vec<&MemoryEntry> = Vec::new();
        let mut i: usize = 0;
        while i < self.entries.len()
            invariant
                s == self.listing(),
                i <= self.entries.len(),
                entry_ref_views(v@) == with_tag(s.take(i as int), tag@),
            decreases self.entries.len() - i,
        {
            proof {
                assert(s.take(i + 1).drop_last() =~= s.take(i as int));
            }
            if entry_has_tag(&self.entries[i], tag) {
                v.push(&self.entries[i]);
                proof {
                    assert(entry_ref_views(v@) =~= entry_ref_views(v@.drop_last()).push(s[i as int]));
                }
            }
            i = i + 1;
        }
        proof {
            assert(s.take(s.len() as int) =~= s);
            lemma_listing_with_tag(s, tag@);
        }
        v
    }
}

/// Every tag that some entry of `m` carries.
pub open spec fn all_tags(m: Map<Seq<char>, EntryView>) -> Set<Seq<char>> {
    Set::new(|t: Seq<char>| exists|k: Seq<char>| m.contains_key(k) && #[trigger] m[k].tags.contains(t))
}

/// Every tag that the first `n` entries of `s` carry.
spec fn tags_of_first(s: Seq<EntryView>, n: int) -> Set<Seq<char>> {
    Set::new(|t: Seq<char>| exists|a: int| 0 <= a < n && #[trigger] s[a].tags.contains(t))
}

/// Adds `t` to an ascending list of distinct texts, where it is not there yet.
fn insert_text(v: &mut Vec<String>, t: &str)
    requires
        texts_ascending(texts_view(old(v)@)),
    ensures
        texts_ascending(texts_view(final(v)@)),
        texts_view(final(v)@).to_set() == texts_view(old(v)@).to_set().insert(t@),
{
    let ghost s = texts_view(v@);
    let mut lo: usize = 0;
    let mut hi: usize = v.len();
    while lo < hi
        invariant
            s == texts_view(v@),
            texts_ascending(s),
            lo <= hi <= s.len() == v.len(),
            forall|j: int| 0 <= j < lo ==> text_lt(#[trigger] s[j], t@),
            forall|j: int| hi <= j < s.len() ==> text_lt(t@, #[trigger] s[j]),
        decreases hi - lo,
    {
        let mid = lo + (hi - lo) / 2;
        match compare_text(v[mid].as_str(), t) {
            TextOrder::Before => {
                assert forall|j: int| 0 <= j < mid + 1 implies text_lt(#[trigger] s[j], t@) by {
                    if j < mid {
                        lemma_text_lt_transitive(s[j], s[mid as int], t@);
                    }
                }
                lo = mid + 1;
            },
            TextOrder::Same => {
                assert(s.to_set().insert(t@) =~= s.to_set()) by {
                    assert(s[mid as int] == t@);
                }
                return;
            },
            TextOrder::After => {
                assert forall|j: int| mid <= j < s.len() implies text_lt(t@, #[trigger] s[j]) by {
                    if j > mid {
                        lemma_text_lt_transitive(t@, s[mid as int], s[j]);
                    }
                }
                hi = mid;
            },
        }
    }
    v.insert(lo, t.to_owned());
    proof {
        let n = s.insert(lo as int, t@);
        assert(texts_view(v@) =~= n);
        assert forall|a: int, b: int| 0 <= a < b < n.len() implies text_lt(#[trigger] n[a], #[trigger] n[b]) by {
            if b < lo {
            } else if a > lo {
                assert(n[a] == s[a - 1] && n[b] == s[b - 1]);
            } else if a == lo {
            } else if b == lo {
            } else {
                assert(n[a] == s[a] && n[b] == s[b - 1]);
            }
        }
        assert forall|x: Seq<char>| n.to_set().contains(x) <==> s.to_set().insert(t@).contains(x) by {
            if n.to_set().contains(x) {
                let a = choose|a: int| 0 <= a < n.len() && n[a] == x;
                if a < lo {
                    assert(s[a] == x);
                } else if a > lo {
                    assert(s[a - 1] == x);
                }
            }
            if s.to_set().contains(x) {
                let a = choose|a: int| 0 <= a < s.len() && s[a] == x;
                if a < lo {
                    assert(n[a] == x);
                } else {
                    assert(n[a + 1] == x);
                }
            }
            if x == t@ {
                assert(n[lo as int] == x);
            }
        }
        assert(n.to_set() =~= s.to_set().insert(t@));
    }
}

impl MemoryStore {
    /// All distinct tags across every entry, sorted.
    pub fn tags(&self) -> (r: Vec<String>)
        requires
            self.wf(),
        ensures
            texts_ascending(texts_view(r@)),
            texts_view(r@).to_set() == all_tags(self@),
    {
        let ghost s = self.listing();
        let mut r: Vec<String> = Vec::new();
        assert(texts_view(r@).to_set() =~= tags_of_first(s, 0));
        let mut i: usize = 0;
        while i < self.entries.len()
            invariant
                s == self.listing(),
                i <= self.entries.len() == s.len(),
                texts_ascending(texts_view(r@)),
                texts_view(r@).to_set() == tags_of_first(s, i as int),
            decreases self.entries.len() - i,
        {
            let e = &self.entries[i];
            assert(e@ == s[i as int]);
            let mut j: usize = 0;
            while j < e.tags.len()
                invariant
                    e@ == s[i as int],
                    j <= e.tags.len(),
                    texts_ascending(texts_view(r@)),
                    texts_view(r@).to_set() == tags_of_first(s, i as int).union(e@.tags.take(j as int).to_set()),
                decreases e.tags.len() - j,
            {
                insert_text(&mut r, e.tags[j].as_str());
                proof {
                    assert(e@.tags.len() == e.tags.len());
                    assert(e@.tags.take(j + 1) =~= e@.tags.take(j as int).push(e@.tags[j as int]));
                    e@.tags.take(j as int).lemma_push_to_set_commute(e@.tags[j as int]);
                    assert(texts_view(r@).to_set() =~= tags_of_first(s, i as int).union(e@.tags.take(j + 1).to_set()));
                }
                j = j + 1;
            }
            proof {
                assert(e@.tags.take(e@.tags.len() as int) =~= e@.tags);
                assert forall|x: Seq<char>| tags_of_first(s, i + 1).contains(x) <==> tags_of_first(s, i as int).union(e@.tags.to_set()).contains(x) by {
                    if tags_of_first(s, i + 1).contains(x) {
                        let a = choose|a: int| 0 <= a < i + 1 && #[trigger] s[a].tags.contains(x);
                        if a == i {
                            assert(e@.tags.to_set().contains(x));
                        } else {
                            assert(tags_of_first(s, i as int).contains(x));
                        }
                    }
                    if e@.tags.to_set().contains(x) {
                        assert(s[i as int].tags.contains(x));
                    }
                    if tags_of_first(s, i as int).contains(x) {
                        let a = choose|a: int| 0 <= a < i && #[trigger] s[a].tags.contains(x);
                        assert(s[a].tags.contains(x));
                    }
                }
                assert(texts_view(r@).to_set() =~= tags_of_first(s, i + 1));
            }
            i = i + 1;
        }
        proof {
            let m = self@;
            assert forall|x: Seq<char>| tags_of_first(s, s.len() as int).contains(x) <==> all_tags(m).contains(x) by {
                if tags_of_first(s, s.len() as int).contains(x) {
                    let a = choose|a: int| 0 <= a < s.len() && #[trigger] s[a].tags.contains(x);
                    lemma_listing_at(s, a);
                    assert(m.contains_key(s[a].key) && m[s[a].key].tags.contains(x));
                }
                if all_tags(m).contains(x) {
                    let k = choose|k: Seq<char>| m.contains_key(k) && #[trigger] m[k].tags.contains(x);
                    let a = choose|a: int| 0 <= a < s.len() && #[trigger] s[a].key == k;
                    lemma_listing_at(s, a);
                    assert(s[a].tags.contains(x));
                }
            }
            assert(tags_of_first(s, s.len() as int) =~= all_tags(m));
        }
        r
    }
}

/// `items` encode, one for one and in order, the entries of `s`.
pub open spec fn encodes_listing(items: Seq<Value>, s: Seq<EntryView>) -> bool {
    &&& items.len() == s.len()
    &&& forall|i: int| 0 <= i < items.len() ==> encodes_entry(#[trigger] items[i], s[i])
}

/// `v` is the JSON array that `MemoryStore::to_json` writes for a store whose
/// map is `m`: its entries in ascending key order.
pub open spec fn encodes_store(v: Value, m: Map<Seq<char>, EntryView>) -> bool {
    match json_as_array(v) {
        Some(items) => exists|s: Seq<EntryView>| is_listing_of(s, m) && encodes_listing(items, s),
        None => false,
    }
}

/// The JSON snapshot of a store whose map is `m`: the one value that encodes it.
pub open spec fn snapshot_of(m: Map<Seq<char>, EntryView>) -> Value {
    choose|v: Value| encodes_store(v, m)
}

/// The map after loading `items` into `m` in order: each item that reads as an
/// entry is written under its key, so that of two items with one key the later wins.
pub open spec fn loaded(m: Map<Seq<char>, EntryView>, items: Seq<Value>) -> Map<Seq<char>, EntryView>
    decreases items.len(),
{
    if items.len() == 0 {
        m
    } else {
        let before = loaded(m, items.drop_last());
        match entry_from_json_spec(items.last()) {
            Some(e) => before.insert(e.key, e),
            None => before,
        }
    }
}

/// How many of `items` read as entries.
pub open spec fn parsed_count(items: Seq<Value>) -> nat
    decreases items.len(),
{
    if items.len() == 0 {
        0
    } else {
        parsed_count(items.drop_last()) + if entry_from_json_spec(items.last()) is Some { 1nat } else { 0nat }
    }
}

impl MemoryStore {
    /// Serialize all entries, sorted by key, to a JSON array.
    pub fn to_json(&self) -> (r: Value)
        requires
            self.wf(),
        ensures
            encodes_store(r, self@),
            r == snapshot_of(self@),
    {
        let ghost s = self.listing();
        let mut items: Vec<Value> = Vec::new();
        let mut i: usize = 0;
        while i < self.entries.len()
            invariant
                s == self.listing(),
                i <= self.entries.len() == s.len(),
                items@.len() == i,
                forall|j: int| 0 <= j < i ==> encodes_entry(#[trigger] items@[j], s[j]),
                forall|j: int, w: Value| #![trigger encodes_entry(w, s[j]), items@[j]]
                    0 <= j < i && encodes_entry(w, s[j]) ==> w == items@[j],
            decreases self.entries.len() - i,
        {
            assert(self.entries@[i as int]@ == s[i as int]);
            let item = self.entries[i].to_json();
            items.push(item);
            i = i + 1;
        }
        let r = value_from_items(items);
        proof {
            self.lemma_wf();
            assert(encodes_listing(items@, s));
            assert forall|w: Value| #[trigger] encodes_store(w, self@) implies w == r by {
                let iw = json_as_array(w)->0;
                let sw = choose|sw: Seq<EntryView>| is_listing_of(sw, self@) && encodes_listing(iw, sw);
                lemma_listing_unique(sw, s);
                assert forall|j: int| 0 <= j < iw.len() implies iw[j] == items@[j] by {
                    assert(encodes_entry(iw[j], s[j]));
                }
                assert(iw =~= items@);
            }
            assert(is_listing_of(s, self@) && encodes_listing(items@, s));
            assert(encodes_store(r, self@));
            assert(encodes_store(snapshot_of(self@), self@));
        }
        r
    }

    /// Writes every item of `items` that reads as an entry into the store,
    /// returning how many did.
    fn load_items(&mut self, items: &Vec<Value>) -> (r: usize)
        requires
            old(self).wf(),
        ensures
            final(self).wf(),
            final(self)@ == loaded(old(self)@, items@),
            r == parsed_count(items@),
    {
        let ghost m0 = self@;
        let mut count: usize = 0;
        let mut i: usize = 0;
        while i < items.len()
            invariant
                self.wf(),
                i <= items.len(),
                self@ == loaded(m0, items@.take(i as int)),
                count == parsed_count(items@.take(i as int)),
                count <= i,
            decreases items.len() - i,
        {
            proof {
                assert(items@.take(i + 1).drop_last() =~= items@.take(i as int));
            }
            match MemoryEntry::from_json(&items[i]) {
                Some(entry) => {
                    self.put(entry);
                    count = count + 1;
                },
                None => {},
            }
            i = i + 1;
        }
        assert(items@.take(items@.len() as int) =~= items@);
        count
    }

    /// Build a store from a JSON array produced by [`MemoryStore::to_json`].
    ///
    /// Returns `None` if `value` is not a JSON array. Elements that cannot be
    /// read as an entry are skipped; of duplicate keys the last occurrence wins.
    pub fn from_json(value: &Value) -> (r: Option<MemoryStore>)
        ensures
            match r {
                Some(st) => {
                    &&& st.wf()
                    &&& json_as_array(*value) is Some
                    &&& st@ == loaded(Map::empty(), json_as_array(*value)->0)
                },
                None => json_as_array(*value) is None,
            },
    {
        let arr = match value_as_array(value) {
            Some(a) => a,
            None => return None,
        };
        let mut store = MemoryStore::new();
        store.load_items(arr);
        Some(store)
    }

    /// Merge entries from a JSON array (as produced by [`MemoryStore::to_json`])
    /// into this store, overwriting any keys that already exist. Returns the
    /// number of entries loaded, `0` if `value` is not a JSON array.
    pub fn load_json(&mut self, value: &Value) -> (r: usize)
        requires
            old(self).wf(),
        ensures
            final(self).wf(),
            match json_as_array(*value) {
                Some(items) => final(self)@ == loaded(old(self)@, items) && r == parsed_count(items),
                None => final(self)@ == old(self)@ && r == 0,
            },
    {
        match value_as_array(value) {
            Some(arr) => self.load_items(arr),
            None => 0,
        }
    }
}

/// In `m`, the entry under `a` was accessed more recently than the one under
/// `b`; of two accessed at the same time, the smaller key counts as more recent.
pub open spec fn recency_before(m: Map<Seq<char>, EntryView>, a: Seq<char>, b: Seq<char>) -> bool {
    ||| m[a].accessed_at > m[b].accessed_at
    ||| (m[a].accessed_at == m[b].accessed_at && text_lt(a, b))
}

/// Position `i` of `s` was accessed more recently than position `j`, ties going
/// to the smaller key.
spec fn ranks_before(s: Seq<EntryView>, i: int, j: int) -> bool {
    ||| s[i].accessed_at > s[j].accessed_at
    ||| (s[i].accessed_at == s[j].accessed_at && text_lt(s[i].key, s[j].key))
}

/// Position `x` appears in the ranking `r`.
spec fn ranks_position(r: Seq<usize>, x: int) -> bool {
    exists|p: int| 0 <= p < r.len() && #[trigger] r[p] == x
}

/// The recency ranking is a strict total order on the positions of an ascending listing.
proof fn lemma_ranks_before_order(s: Seq<EntryView>, i: int, j: int, k: int)
    requires
        keys_ascending(s),
        0 <= i < s.len(),
        0 <= j < s.len(),
        0 <= k < s.len(),
    ensures
        !ranks_before(s, i, i),
        i != j ==> (ranks_before(s, i, j) || ranks_before(s, j, i)),
        !(ranks_before(s, i, j) && ranks_before(s, j, i)),
        ranks_before(s, i, j) && ranks_before(s, j, k) ==> ranks_before(s, i, k),
{
    lemma_text_lt_irreflexive(s[i].key);
    lemma_text_lt_total(s[i].key, s[j].key);
    if i != j && s[i].key == s[j].key {
        lemma_key_position_unique(s, i, j);
    }
    if ranks_before(s, i, j) && ranks_before(s, j, k) && s[i].accessed_at == s[k].accessed_at {
        lemma_text_lt_transitive(s[i].key, s[j].key, s[k].key);
    }
}

impl MemoryStore {
    /// Whether entry `i` ranks before entry `j` by recency of access.
    fn ranks_before_at(&self, i: usize, j: usize) -> (r: bool)
        requires
            self.wf(),
            i < self.listing().len(),
            j < self.listing().len(),
        ensures
            r == ranks_before(self.listing(), i as int, j as int),
    {
        let a = &self.entries[i];
        let b = &self.entries[j];
        assert(a@ == self.listing()[i as int] && b@ == self.listing()[j as int]);
        if a.accessed_at != b.accessed_at {
            a.accessed_at > b.accessed_at
        } else {
            compare_text(a.key.as_str(), b.key.as_str()) == TextOrder::Before
        }
    }

    /// The positions of all entries, most recently accessed first.
    fn recency_ranking(&self) -> (r: Vec<usize>)
        requires
            self.wf(),
        ensures
            r@.len() == self.listing().len(),
            forall|p: int| 0 <= p < r@.len() ==> #[trigger] r@[p] < self.listing().len(),
            forall|x: int| 0 <= x < self.listing().len() ==> #[trigger] ranks_position(r@, x),
            forall|a: int, b: int| 0 <= a < b < r@.len() ==> ranks_before(self.listing(), #[trigger] r@[a] as int, #[trigger] r@[b] as int),
    {
        let ghost s = self.listing();
        let n = self.entries.len();
        let mut r: Vec<usize> = Vec::new();
        let mut k: usize = 0;
        while k < n
            invariant
                s == self.listing(),
                self.wf(),
                n == s.len(),
                k <= n,
                r@.len() == k,
                forall|p: int| 0 <= p < r@.len() ==> #[trigger] r@[p] < k,
                forall|x: int| 0 <= x < k ==> #[trigger] ranks_position(r@, x),
                forall|a: int, b: int| 0 <= a < b < r@.len() ==> ranks_before(s, #[trigger] r@[a] as int, #[trigger] r@[b] as int),
            decreases n - k,
        {
            let mut p: usize = 0;
            while p < r.len() && self.ranks_before_at(r[p], k)
                invariant
                    s == self.listing(),
                    self.wf(),
                    n == s.len(),
                    k < n,
                    r@.len() == k,
                    p <= r@.len(),
                    forall|q: int| 0 <= q < r@.len() ==> #[trigger] r@[q] < k,
                    forall|q: int| 0 <= q < p ==> ranks_before(s, #[trigger] r@[q] as int, k as int),
                decreases r@.len() - p,
            {
                p = p + 1;
            }
            let ghost old_r = r@;
            proof {
                if p < old_r.len() {
                    lemma_ranks_before_order(s, old_r[p as int] as int, k as int, k as int);
                }
            }
            r.insert(p, k);
            proof {
                assert(r@ == old_r.insert(p as int, k));
                assert forall|a: int, b: int| 0 <= a < b < r@.len() implies ranks_before(s, #[trigger] r@[a] as int, #[trigger] r@[b] as int) by {
                    if b < p {
                        assert(r@[a] == old_r[a] && r@[b] == old_r[b]);
                    } else if a > p {
                        assert(r@[a] == old_r[a - 1] && r@[b] == old_r[b - 1]);
                    } else if a == p {
                        assert(r@[b] == old_r[b - 1]);
                        if b - 1 > p {
                            assert(ranks_before(s, old_r[p as int] as int, old_r[b - 1] as int));
                            lemma_ranks_before_order(s, k as int, old_r[p as int] as int, old_r[b - 1] as int);
                        }
                    } else if b == p {
                        assert(r@[a] == old_r[a]);
                    } else {
                        assert(r@[a] == old_r[a] && r@[b] == old_r[b - 1]);
                    }
                }
                assert forall|x: int| 0 <= x < k + 1 implies #[trigger] ranks_position(r@, x) by {
                    if x == k {
                        assert(r@[p as int] == x);
                    } else {
                        assert(ranks_position(old_r, x));
                        let q = choose|q: int| 0 <= q < old_r.len() && #[trigger] old_r[q] == x;
                        if q < p {
                            assert(r@[q] == x);
                        } else {
                            assert(r@[q + 1] == x);
                        }
                    }
                }
            }
            k = k + 1;
        }
        r
    }
}

impl MemoryStore {
    /// Evict least-recently-accessed entries until at most `max_entries` remain.
    ///
    /// Entries are ranked by `accessed_at` (most recent first); ties break by
    /// key. Returns the number of entries removed. A `max_entries` of `0`
    /// clears the store.
    pub fn prune_lru(&mut self, max_entries: usize) -> (r: usize)
        requires
            old(self).wf(),
        ensures
            final(self).wf(),
            old(self)@.len() <= max_entries ==> r == 0 && final(self)@ == old(self)@,
            old(self)@.len() > max_entries ==> {
                &&& r == old(self)@.len() - max_entries
                &&& final(self)@.len() == max_entries
                &&& final(self)@.submap_of(old(self)@)
                &&& forall|k: Seq<char>, d: Seq<char>|
                    #[trigger] final(self)@.contains_key(k) && old(self)@.contains_key(d)
                        && !#[trigger] final(self)@.contains_key(d) ==> recency_before(old(self)@, k, d)
                &&& forall|k: Seq<char>, d: Seq<char>|
                    #[trigger] final(self)@.contains_key(k) && old(self)@.contains_key(d)
                        && !#[trigger] final(self)@.contains_key(d) ==> {
                        ||| old(self)@[k].accessed_at > old(self)@[d].accessed_at
                        ||| (old(self)@[k].accessed_at == old(self)@[d].accessed_at && text_lt(k, d))
                    }
            },
    {
        proof {
            self.lemma_wf();
        }
        let n = self.entries.len();
        if n <= max_entries {
            return 0;
        }
        let ghost s = self.listing();
        let ghost m0 = self@;
        let ranked = self.recency_ranking();
        let ghost dk = Seq::new((n - max_entries) as nat, |q: int| s[ranked@[max_entries + q] as int].key);
        let mut doomed: Vec<String> = Vec::new();
        let mut p: usize = max_entries;
        while p < n
            invariant
                s == self.listing(),
                n == s.len() == ranked@.len(),
                max_entries <= p <= n,
                forall|q: int| 0 <= q < ranked@.len() ==> #[trigger] ranked@[q] < n,
                dk.len() == n - max_entries,
                forall|q: int| 0 <= q < dk.len() ==> #[trigger] dk[q] == s[ranked@[max_entries + q] as int].key,
                doomed@.len() == p - max_entries,
                forall|q: int| 0 <= q < doomed@.len() ==> #[trigger] doomed@[q]@ == dk[q],
            decreases n - p,
        {
            let idx = ranked[p];
            doomed.push(self.entries[idx].key.clone());
            proof {
                assert(self.entries@[idx as int]@ == s[idx as int]);
            }
            p = p + 1;
        }
        // Distinct positions in the ranking hold distinct keys.
        assert forall|a: int, b: int| 0 <= a < dk.len() && 0 <= b < dk.len() && a != b implies dk[a] != dk[b] by {
            let (lo, hi) = if a < b { (a, b) } else { (b, a) };
            let ia = ranked@[max_entries + lo] as int;
            let ib = ranked@[max_entries + hi] as int;
            assert(ranks_before(s, ia, ib));
            lemma_ranks_before_order(s, ia, ib, ib);
            if s[ia].key == s[ib].key {
                lemma_key_position_unique(s, ia, ib);
            }
        }
        let mut removed: usize = 0;
        let mut j: usize = 0;
        while j < doomed.len()
            invariant
                self.wf(),
                doomed@.len() == dk.len() == n - max_entries,
                m0.len() == n,
                m0.dom().finite(),
                forall|q: int| 0 <= q < doomed@.len() ==> #[trigger] doomed@[q]@ == dk[q],
                forall|a: int, b: int| 0 <= a < dk.len() && 0 <= b < dk.len() && a != b ==> dk[a] != dk[b],
                forall|q: int| 0 <= q < dk.len() ==> m0.contains_key(#[trigger] dk[q]),
                j <= doomed@.len(),
                removed == j,
                self@ == m0.remove_keys(dk.take(j as int).to_set()),
                self@.len() == m0.len() - j,
            decreases doomed@.len() - j,
        {
            let ghost before = self@;
            let ghost k = dk[j as int];
            proof {
                self.lemma_wf();
                assert(!dk.take(j as int).to_set().contains(k)) by {
                    if dk.take(j as int).to_set().contains(k) {
                        let q = choose|q: int| 0 <= q < dk.take(j as int).len() && dk.take(j as int)[q] == k;
                        assert(dk[q] == dk[j as int]);
                    }
                }
                assert(before.contains_key(k));
                before.lemma_remove_key_len(k);
            }
            let gone = self.delete(doomed[j].as_str());
            proof {
                assert(dk.take(j + 1).to_set() =~= dk.take(j as int).to_set().insert(k)) by {
                    assert(dk.take(j + 1) =~= dk.take(j as int).push(k));
                    dk.take(j as int).lemma_push_to_set_commute(k);
                }
                assert(self@ =~= m0.remove_keys(dk.take(j + 1).to_set()));
            }
            if gone {
                removed = removed + 1;
            }
            j = j + 1;
        }
        proof {
            assert(dk.take(dk.len() as int) =~= dk);
            let fin = self@;
            assert(fin.submap_of(m0));
            assert forall|k: Seq<char>, d: Seq<char>|
                #[trigger] fin.contains_key(k) && m0.contains_key(d) && !#[trigger] fin.contains_key(d)
                implies recency_before(m0, k, d) by {
                assert(dk.to_set().contains(d));
                let qd = choose|q: int| 0 <= q < dk.len() && dk[q] == d;
                let id = ranked@[max_entries + qd] as int;
                let ik = choose|i: int| 0 <= i < s.len() && #[trigger] s[i].key == k;
                assert(ranks_position(ranked@, ik));
                let pk = choose|q: int| 0 <= q < ranked@.len() && #[trigger] ranked@[q] == ik;
                if pk >= max_entries {
                    assert(dk[pk - max_entries] == k);
                    assert(dk.to_set().contains(k));
                }
                assert(pk < max_entries + qd);
                assert(ranks_before(s, ik, id));
                lemma_listing_at(s, ik);
                lemma_listing_at(s, id);
            }
        }
        removed
    }
}

impl Default for MemoryStore {
    /// An empty store.
    fn default() -> (r: Self)
        ensures
            r.wf(),
            r@ == Map::<Seq<char>, EntryView>::empty(),
    {
        MemoryStore::new()
    }
}
} // verus!
