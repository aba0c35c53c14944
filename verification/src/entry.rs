//! One stored memory and its JSON form.

use vstd::prelude::*;
use serde_json::Value;
use crate::json::{
    json_as_array, json_as_duration, json_as_object, json_as_str, json_as_u64, json_is_null,
    json_object_fields, json_seconds_of_micros, object_get, object_insert, object_new,
    value_as_array, value_as_duration, value_as_object, value_as_str, value_as_u64,
    value_from_items, value_from_micros, value_from_object, value_from_string, value_from_u64,
    value_null,
};
use crate::clock::{micros_held, micros_of};

verus! {

/// A stored memory entry. Times are microseconds since the Unix epoch; in JSON
/// they are written and read as seconds.
#[derive(Debug, Clone)]
pub struct MemoryEntry {
    pub key: String,
    pub value: Value,
    pub tags: Vec<String>,
    pub created_at: u64,
    pub accessed_at: u64,
    pub access_count: usize,
}

/// The mathematical model of an entry: texts by their characters.
pub struct EntryView {
    pub key: Seq<char>,
    pub value: Value,
    pub tags: Seq<Seq<char>>,
    pub created_at: u64,
    pub accessed_at: u64,
    pub access_count: usize,
}

/// The characters of each string, in order.
pub open spec fn texts_view(s: Seq<String>) -> Seq<Seq<char>> {
    s.map_values(|t: String| t@)
}

impl View for MemoryEntry {
    type V = EntryView;

    open spec fn view(&self) -> EntryView {
        EntryView {
            key: self.key@,
            value: self.value,
            tags: texts_view(self.tags@),
            created_at: self.created_at,
            accessed_at: self.accessed_at,
            access_count: self.access_count,
        }
    }
}

/// The JSON `null` value.
pub open spec fn null_value() -> Value {
    choose|n: Value| json_is_null(n)
}

/// `v` is a JSON array of strings holding exactly `ts`, in order.
pub open spec fn encodes_texts(v: Value, ts: Seq<Seq<char>>) -> bool {
    match json_as_array(v) {
        Some(items) => {
            &&& items.len() == ts.len()
            &&& forall|i: int| 0 <= i < items.len() ==> json_as_str(#[trigger] items[i]) == Some(ts[i])
        },
        None => false,
    }
}

/// `v` is the JSON object that `MemoryEntry::to_json` writes for `e`: exactly the
/// fields `key`, `value`, `tags`, `created_at`, `accessed_at` and `access_count`.
pub open spec fn encodes_entry(v: Value, e: EntryView) -> bool {
    match json_as_object(v) {
        Some(obj) => {
            let f = json_object_fields(obj);
            &&& f.dom() =~= set!["key"@, "value"@, "tags"@, "created_at"@, "accessed_at"@, "access_count"@]
            &&& json_as_str(f["key"@]) == Some(e.key)
            &&& f["value"@] == e.value
            &&& encodes_texts(f["tags"@], e.tags)
            &&& f["created_at"@] == json_seconds_of_micros(e.created_at)
            &&& f["accessed_at"@] == json_seconds_of_micros(e.accessed_at)
            &&& json_as_u64(f["access_count"@]) == Some(e.access_count as u64)
        },
        None => false,
    }
}

/// The strings among `items`, in order; other items are passed over.
pub open spec fn strings_among(items: Seq<Value>) -> Seq<Seq<char>>
    decreases items.len(),
{
    if items.len() == 0 {
        Seq::empty()
    } else {
        let rest = strings_among(items.drop_last());
        match json_as_str(items.last()) {
            Some(s) => rest.push(s),
            None => rest,
        }
    }
}

/// The tags that a JSON object's fields give: the strings of its `tags` array,
/// none where there is no such array.
pub open spec fn tags_field(f: Map<Seq<char>, Value>) -> Seq<Seq<char>> {
    if f.contains_key("tags"@) {
        match json_as_array(f["tags"@]) {
            Some(items) => strings_among(items),
            None => Seq::empty(),
        }
    } else {
        Seq::empty()
    }
}

/// The number under `name`, 0 where the field is missing or holds no `u64`.
pub open spec fn count_field(f: Map<Seq<char>, Value>, name: Seq<char>) -> u64 {
    if f.contains_key(name) {
        match json_as_u64(f[name]) {
            Some(n) => n,
            None => 0,
        }
    } else {
        0
    }
}

/// The time under `name`, read as seconds and turned into microseconds; 0 where
/// the field is missing or holds no number of seconds that a `Duration` can hold.
pub open spec fn time_field(f: Map<Seq<char>, Value>, name: Seq<char>) -> u64 {
    if f.contains_key(name) {
        match json_as_duration(f[name]) {
            Some(d) => micros_held(d),
            None => 0,
        }
    } else {
        0
    }
}

/// What a time of `t` microseconds reads back as after `MemoryEntry::to_json`
/// wrote it as seconds.
pub open spec fn time_reread(t: u64) -> u64 {
    match json_as_duration(json_seconds_of_micros(t)) {
        Some(d) => micros_held(d),
        None => 0,
    }
}

/// `e` with both times as they read back from the seconds written for them.
pub open spec fn retimed(e: EntryView) -> EntryView {
    EntryView {
        key: e.key,
        value: e.value,
        tags: e.tags,
        created_at: time_reread(e.created_at),
        accessed_at: time_reread(e.accessed_at),
        access_count: e.access_count,
    }
}

/// What `MemoryEntry::from_json` reads from `v`: nothing unless `v` is an object
/// whose `key` is a string; missing optional fields take their defaults.
pub open spec fn entry_from_json_spec(v: Value) -> Option<EntryView> {
    match json_as_object(v) {
        Some(obj) => {
            let f = json_object_fields(obj);
            if f.contains_key("key"@) && json_as_str(f["key"@]) is Some {
                Some(EntryView {
                    key: json_as_str(f["key"@])->0,
                    value: if f.contains_key("value"@) { f["value"@] } else { null_value() },
                    tags: tags_field(f),
                    created_at: time_field(f, "created_at"@),
                    accessed_at: time_field(f, "accessed_at"@),
                    access_count: count_field(f, "access_count"@) as usize,
                })
            } else {
                None
            }
        },
        None => None,
    }
}

/// The JSON `null` that `value_null` builds is the one `null_value` names.
proof fn lemma_null_value(n: Value)
    requires
        json_is_null(n),
        forall|m: Value| json_is_null(m) ==> m == n,
    ensures
        null_value() == n,
{
}

impl MemoryEntry {
    /// Serialize this entry to a JSON object.
    pub fn to_json(&self) -> (r: Value)
        ensures
            encodes_entry(r, self@),
            forall|w: Value| #[trigger] encodes_entry(w, self@) ==> w == r,
    {
        let mut tag_items: Vec<Value> = Vec::new();
        let mut i: usize = 0;
        while i < self.tags.len()
            invariant
                i <= self.tags.len(),
                tag_items.len() == i,
                forall|j: int| 0 <= j < i ==> json_as_str(#[trigger] tag_items@[j]) == Some(self.tags@[j]@),
                forall|j: int, w: Value| #![trigger json_as_str(w), tag_items@[j]] 0 <= j < i && json_as_str(w) == Some(self.tags@[j]@) ==> w == tag_items@[j],
            decreases self.tags.len() - i,
        {
            tag_items.push(value_from_string(self.tags[i].clone()));
            i = i + 1;
        }
        let tags_value = value_from_items(tag_items);
        assert(encodes_texts(tags_value, self@.tags)) by {
            assert forall|j: int| 0 <= j < tag_items@.len() implies
                json_as_str(#[trigger] tag_items@[j]) == Some(self@.tags[j]) by {}
        }
        let mut obj = object_new();
        object_insert(&mut obj, "key".to_owned(), value_from_string(self.key.clone()));
        object_insert(&mut obj, "value".to_owned(), self.value.clone());
        object_insert(&mut obj, "tags".to_owned(), tags_value);
        object_insert(&mut obj, "created_at".to_owned(), value_from_micros(self.created_at));
        object_insert(&mut obj, "accessed_at".to_owned(), value_from_micros(self.accessed_at));
        object_insert(&mut obj, "access_count".to_owned(), value_from_u64(self.access_count as u64));
        proof {
            reveal_strlit("key");
            reveal_strlit("value");
            reveal_strlit("tags");
            reveal_strlit("created_at");
            reveal_strlit("accessed_at");
            reveal_strlit("access_count");
            // The six field names have six different lengths.
            assert("key"@.len() == 3);
            assert("value"@.len() == 5);
            assert("tags"@.len() == 4);
            assert("created_at"@.len() == 10);
            assert("accessed_at"@.len() == 11);
            assert("access_count"@.len() == 12);
        }
        let r = value_from_object(obj);
        proof {
            let f = json_object_fields(obj);
            assert(f.dom() =~= set!["key"@, "value"@, "tags"@, "created_at"@, "accessed_at"@, "access_count"@]);
            assert forall|w: Value| #[trigger] encodes_entry(w, self@) implies w == r by {
                let ow = json_as_object(w)->0;
                let fw = json_object_fields(ow);
                let items = json_as_array(fw["tags"@])->0;
                assert forall|j: int| 0 <= j < items.len() implies items[j] == tag_items@[j] by {
                    assert(json_as_str(items[j]) == Some(self.tags@[j]@));
                }
                assert(items =~= tag_items@);
                assert(fw =~= f);
            }
        }
        r
    }

    /// Reconstruct an entry from a JSON object produced by [`MemoryEntry::to_json`].
    ///
    /// Returns `None` if `value` is not a JSON object or is missing/has the
    /// wrong type for the required `key` field. Missing optional fields fall
    /// back to defaults (empty tags, zeroed timestamps/counter).
    pub fn from_json(value: &Value) -> (r: Option<MemoryEntry>)
        ensures
            match r {
                Some(e) => entry_from_json_spec(*value) == Some(e@),
                None => entry_from_json_spec(*value) is None,
            },
    {
        let obj = match value_as_object(value) {
            Some(o) => o,
            None => return None,
        };
        let ghost f = json_object_fields(*obj);
        let key = match object_get(obj, "key") {
            Some(k) => match value_as_str(k) {
                Some(s) => s.to_owned(),
                None => return None,
            },
            None => return None,
        };
        let entry_value = match object_get(obj, "value") {
            Some(v) => v.clone(),
            None => {
                let n = value_null();
                proof {
                    lemma_null_value(n);
                }
                n
            },
        };
        let mut tags: Vec<String> = Vec::new();
        match object_get(obj, "tags") {
            Some(t) => match value_as_array(t) {
                Some(arr) => {
                    let mut i: usize = 0;
                    while i < arr.len()
                        invariant
                            i <= arr.len(),
                            texts_view(tags@) == strings_among(arr@.take(i as int)),
                        decreases arr.len() - i,
                    {
                        proof {
                            assert(arr@.take(i + 1).drop_last() =~= arr@.take(i as int));
                        }
                        match value_as_str(&arr[i]) {
                            Some(s) => {
                                tags.push(s.to_owned());
                                proof {
                                    assert(texts_view(tags@) =~= strings_among(arr@.take(i as int)).push(s@));
                                }
                            },
                            None => {},
                        }
                        i = i + 1;
                    }
                    proof {
                        assert(arr@.take(arr@.len() as int) =~= arr@);
                    }
                },
                None => {},
            },
            None => {},
        }
        proof {
            assert(texts_view(tags@) =~= tags_field(f));
        }
        let created_at = match object_get(obj, "created_at") {
            Some(v) => match value_as_duration(v) {
                Some(d) => micros_of(&d),
                None => 0,
            },
            None => 0,
        };
        let accessed_at = match object_get(obj, "accessed_at") {
            Some(v) => match value_as_duration(v) {
                Some(d) => micros_of(&d),
                None => 0,
            },
            None => 0,
        };
        let access_count = match object_get(obj, "access_count") {
            Some(v) => match value_as_u64(v) {
                Some(n) => n,
                None => 0,
            },
            None => 0,
        };
        Some(MemoryEntry {
            key,
            value: entry_value,
            tags,
            created_at,
            accessed_at,
            access_count: access_count as usize,
        })
    }
}

} // verus!
