//! Entries listed in ascending key order, and the map from key to entry that
//! such a listing holds.

use vstd::prelude::*;
use crate::entry::EntryView;
use crate::text::{text_lt, lemma_text_lt_irreflexive, lemma_text_lt_total, lemma_text_lt_transitive};

verus! {

/// Texts strictly increase along `s`.
pub open spec fn texts_ascending(s: Seq<Seq<char>>) -> bool {
    forall|i: int, j: int| 0 <= i < j < s.len() ==> text_lt(#[trigger] s[i], #[trigger] s[j])
}

/// Keys strictly increase along `s`.
pub open spec fn keys_ascending(s: Seq<EntryView>) -> bool {
    forall|i: int, j: int| 0 <= i < j < s.len() ==> text_lt(#[trigger] s[i].key, #[trigger] s[j].key)
}

/// Some entry of `s` has key `k`.
pub open spec fn listed(s: Seq<EntryView>, k: Seq<char>) -> bool {
    exists|i: int| 0 <= i < s.len() && #[trigger] s[i].key == k
}

/// The keys of `s`, in order.
pub open spec fn listing_keys(s: Seq<EntryView>) -> Seq<Seq<char>> {
    s.map_values(|e: EntryView| e.key)
}

/// The map from key to entry that `s` holds.
pub open spec fn listing_map(s: Seq<EntryView>) -> Map<Seq<char>, EntryView> {
    Map::new(
        |k: Seq<char>| listed(s, k),
        |k: Seq<char>| s[choose|i: int| 0 <= i < s.len() && #[trigger] s[i].key == k],
    )
}

/// `s` lists the entries of `m`, each once, in ascending key order.
pub open spec fn is_listing_of(s: Seq<EntryView>, m: Map<Seq<char>, EntryView>) -> bool {
    keys_ascending(s) && listing_map(s) == m
}

/// In an ascending listing, a key sits at one position only.
pub proof fn lemma_key_position_unique(s: Seq<EntryView>, i: int, j: int)
    requires
        keys_ascending(s),
        0 <= i < s.len(),
        0 <= j < s.len(),
        s[i].key == s[j].key,
    ensures
        i == j,
{
    lemma_text_lt_irreflexive(s[i].key);
}

/// An entry of an ascending listing is what its map holds under its key.
pub proof fn lemma_listing_at(s: Seq<EntryView>, i: int)
    requires
        keys_ascending(s),
        0 <= i < s.len(),
    ensures
        listing_map(s).contains_key(s[i].key),
        listing_map(s)[s[i].key] == s[i],
{
    let k = s[i].key;
    assert(listed(s, k));
    let j = choose|j: int| 0 <= j < s.len() && #[trigger] s[j].key == k;
    lemma_key_position_unique(s, i, j);
}

/// The map of an ascending listing has as many keys as the listing has entries.
pub proof fn lemma_listing_len(s: Seq<EntryView>)
    requires
        keys_ascending(s),
    ensures
        listing_map(s).dom() == listing_keys(s).to_set(),
        listing_map(s).dom().finite(),
        listing_map(s).len() == s.len(),
{
    let ks = listing_keys(s);
    assert(listing_map(s).dom() =~= ks.to_set()) by {
        assert forall|k: Seq<char>| listing_map(s).dom().contains(k) implies ks.to_set().contains(k) by {
            let i = choose|i: int| 0 <= i < s.len() && #[trigger] s[i].key == k;
            assert(ks[i] == k);
        }
        assert forall|k: Seq<char>| ks.to_set().contains(k) implies listing_map(s).dom().contains(k) by {
            let i = choose|i: int| 0 <= i < ks.len() && ks[i] == k;
            assert(s[i].key == k);
        }
    }
    assert(ks.no_duplicates()) by {
        assert forall|i: int, j: int| 0 <= i < ks.len() && 0 <= j < ks.len() && i != j implies ks[i] != ks[j] by {
            if ks[i] == ks[j] {
                lemma_key_position_unique(s, i, j);
            }
        }
    }
    ks.unique_seq_to_set();
    vstd::seq_lib::seq_to_set_is_finite(ks);
}

/// Inserting an entry whose key is new, where the order stays ascending, adds
/// that entry to the map.
pub proof fn lemma_listing_insert(s: Seq<EntryView>, p: int, e: EntryView)
    requires
        keys_ascending(s),
        0 <= p <= s.len(),
        keys_ascending(s.insert(p, e)),
        !listed(s, e.key),
    ensures
        listing_map(s.insert(p, e)) == listing_map(s).insert(e.key, e),
{
    let t = s.insert(p, e);
    let m = listing_map(s);
    let mt = listing_map(t);
    assert forall|k: Seq<char>| mt.contains_key(k) <==> m.insert(e.key, e).contains_key(k) by {
        if mt.contains_key(k) {
            let i = choose|i: int| 0 <= i < t.len() && #[trigger] t[i].key == k;
            if i < p {
                assert(s[i].key == k);
            } else if i > p {
                assert(s[i - 1].key == k);
            }
        }
        if m.contains_key(k) {
            let i = choose|i: int| 0 <= i < s.len() && #[trigger] s[i].key == k;
            if i < p {
                assert(t[i].key == k);
            } else {
                assert(t[i + 1].key == k);
            }
        }
        if k == e.key {
            assert(t[p].key == k);
        }
    }
    assert forall|k: Seq<char>| #[trigger] mt.contains_key(k) implies mt[k] == m.insert(e.key, e)[k] by {
        if k == e.key {
            lemma_listing_at(t, p);
        } else {
            let i = choose|i: int| 0 <= i < t.len() && #[trigger] t[i].key == k;
            lemma_listing_at(t, i);
            if i < p {
                lemma_listing_at(s, i);
            } else {
                assert(i != p);
                lemma_listing_at(s, i - 1);
            }
        }
    }
    assert(mt =~= m.insert(e.key, e));
}

/// Appending an entry whose key is above every listed key adds it to the map.
pub proof fn lemma_listing_push(s: Seq<EntryView>, e: EntryView)
    requires
        keys_ascending(s),
        forall|i: int| 0 <= i < s.len() ==> text_lt(#[trigger] s[i].key, e.key),
    ensures
        keys_ascending(s.push(e)),
        listing_map(s.push(e)) == listing_map(s).insert(e.key, e),
{
    assert(s.push(e) =~= s.insert(s.len() as int, e));
    assert(!listed(s, e.key)) by {
        if listed(s, e.key) {
            let i = choose|i: int| 0 <= i < s.len() && #[trigger] s[i].key == e.key;
            lemma_text_lt_irreflexive(e.key);
        }
    }
    lemma_listing_insert(s, s.len() as int, e);
}

/// Replacing an entry by one with the same key replaces it in the map.
pub proof fn lemma_listing_update(s: Seq<EntryView>, i: int, e: EntryView)
    requires
        keys_ascending(s),
        0 <= i < s.len(),
        s[i].key == e.key,
    ensures
        keys_ascending(s.update(i, e)),
        listing_map(s.update(i, e)) == listing_map(s).insert(e.key, e),
{
    let t = s.update(i, e);
    assert forall|a: int, b: int| 0 <= a < b < t.len() implies text_lt(#[trigger] t[a].key, #[trigger] t[b].key) by {
        assert(t[a].key == s[a].key);
        assert(t[b].key == s[b].key);
    }
    let m = listing_map(s);
    let mt = listing_map(t);
    assert forall|k: Seq<char>| mt.contains_key(k) <==> m.insert(e.key, e).contains_key(k) by {
        if mt.contains_key(k) {
            let j = choose|j: int| 0 <= j < t.len() && #[trigger] t[j].key == k;
            assert(s[j].key == k);
        }
        if m.contains_key(k) {
            let j = choose|j: int| 0 <= j < s.len() && #[trigger] s[j].key == k;
            assert(t[j].key == k);
        }
        if k == e.key {
            assert(t[i].key == k);
        }
    }
    assert forall|k: Seq<char>| #[trigger] mt.contains_key(k) implies mt[k] == m.insert(e.key, e)[k] by {
        let j = choose|j: int| 0 <= j < t.len() && #[trigger] t[j].key == k;
        lemma_listing_at(t, j);
        if j != i {
            lemma_listing_at(s, j);
            if k == e.key {
                lemma_key_position_unique(s, i, j);
            }
        }
    }
    assert(mt =~= m.insert(e.key, e));
}

/// Removing an entry removes its key from the map.
pub proof fn lemma_listing_remove(s: Seq<EntryView>, i: int)
    requires
        keys_ascending(s),
        0 <= i < s.len(),
    ensures
        keys_ascending(s.remove(i)),
        listing_map(s.remove(i)) == listing_map(s).remove(s[i].key),
{
    let t = s.remove(i);
    let k0 = s[i].key;
    assert forall|a: int, b: int| 0 <= a < b < t.len() implies text_lt(#[trigger] t[a].key, #[trigger] t[b].key) by {
        let sa = if a < i { a } else { a + 1 };
        let sb = if b < i { b } else { b + 1 };
        assert(t[a] == s[sa]);
        assert(t[b] == s[sb]);
    }
    let m = listing_map(s);
    let mt = listing_map(t);
    assert forall|k: Seq<char>| mt.contains_key(k) <==> m.remove(k0).contains_key(k) by {
        if mt.contains_key(k) {
            let j = choose|j: int| 0 <= j < t.len() && #[trigger] t[j].key == k;
            let sj = if j < i { j } else { j + 1 };
            assert(s[sj].key == k);
            if k == k0 {
                lemma_key_position_unique(s, i, sj);
            }
        }
        if m.contains_key(k) && k != k0 {
            let j = choose|j: int| 0 <= j < s.len() && #[trigger] s[j].key == k;
            if j < i {
                assert(t[j].key == k);
            } else {
                assert(j != i);
                assert(t[j - 1].key == k);
            }
        }
    }
    assert forall|k: Seq<char>| #[trigger] mt.contains_key(k) implies mt[k] == m.remove(k0)[k] by {
        let j = choose|j: int| 0 <= j < t.len() && #[trigger] t[j].key == k;
        lemma_listing_at(t, j);
        let sj = if j < i { j } else { j + 1 };
        assert(t[j] == s[sj]);
        lemma_listing_at(s, sj);
    }
    assert(mt =~= m.remove(k0));
}

/// Two ascending listings of the same map are the same listing.
pub proof fn lemma_listing_unique(s1: Seq<EntryView>, s2: Seq<EntryView>)
    requires
        keys_ascending(s1),
        keys_ascending(s2),
        listing_map(s1) == listing_map(s2),
    ensures
        s1 == s2,
    decreases s1.len(),
{
    lemma_listing_len(s1);
    lemma_listing_len(s2);
    if s1.len() > 0 {
        let k1 = s1[0].key;
        let k2 = s2[0].key;
        lemma_listing_at(s1, 0);
        lemma_listing_at(s2, 0);
        // k2 is listed in s1 at some position, so k1 <= k2; and the reverse.
        let i2 = choose|i: int| 0 <= i < s1.len() && #[trigger] s1[i].key == k2;
        let i1 = choose|i: int| 0 <= i < s2.len() && #[trigger] s2[i].key == k1;
        if k1 != k2 {
            assert(i2 != 0);
            assert(text_lt(k1, k2));
            assert(i1 != 0);
            assert(text_lt(k2, k1));
            lemma_text_lt_total(k1, k2);
        }
        assert(s1[0] == s2[0]);
        lemma_listing_remove(s1, 0);
        lemma_listing_remove(s2, 0);
        lemma_listing_unique(s1.remove(0), s2.remove(0));
        assert(s1 =~= seq![s1[0]] + s1.remove(0));
        assert(s2 =~= seq![s2[0]] + s2.remove(0));
    } else {
        assert(s1 =~= s2);
    }
}

/// The entries of `m` that carry tag `t`.
pub open spec fn tagged(m: Map<Seq<char>, EntryView>, t: Seq<char>) -> Map<Seq<char>, EntryView> {
    Map::new(|k: Seq<char>| m.contains_key(k) && m[k].tags.contains(t), |k: Seq<char>| m[k])
}

/// The entries of `s` that carry tag `t`, in order.
pub open spec fn with_tag(s: Seq<EntryView>, t: Seq<char>) -> Seq<EntryView>
    decreases s.len(),
{
    if s.len() == 0 {
        s
    } else if s.last().tags.contains(t) {
        with_tag(s.drop_last(), t).push(s.last())
    } else {
        with_tag(s.drop_last(), t)
    }
}

/// The entries of an ascending listing that carry a tag form an ascending
/// listing of the tagged part of its map.
pub proof fn lemma_listing_with_tag(s: Seq<EntryView>, t: Seq<char>)
    requires
        keys_ascending(s),
    ensures
        keys_ascending(with_tag(s, t)),
        listing_map(with_tag(s, t)) == tagged(listing_map(s), t),
        forall|i: int| 0 <= i < with_tag(s, t).len() ==> exists|j: int| 0 <= j < s.len() && #[trigger] with_tag(s, t)[i] == s[j],
    decreases s.len(),
{
    let w = with_tag(s, t);
    if s.len() == 0 {
        assert(listing_map(s) =~= Map::<Seq<char>, EntryView>::empty());
        assert(listing_map(w) =~= tagged(listing_map(s), t));
    } else {
        let s0 = s.drop_last();
        let x = s.last();
        assert(keys_ascending(s0));
        lemma_listing_with_tag(s0, t);
        let w0 = with_tag(s0, t);
        assert forall|i: int| 0 <= i < s0.len() implies text_lt(#[trigger] s0[i].key, x.key) by {
            assert(s[i] == s0[i]);
        }
        assert(s0.push(x) =~= s);
        lemma_listing_push(s0, x);
        let m0 = listing_map(s0);
        assert(!m0.contains_key(x.key)) by {
            if m0.contains_key(x.key) {
                let j = choose|j: int| 0 <= j < s0.len() && #[trigger] s0[j].key == x.key;
                lemma_text_lt_irreflexive(x.key);
            }
        }
        if x.tags.contains(t) {
            assert forall|i: int| 0 <= i < w0.len() implies text_lt(#[trigger] w0[i].key, x.key) by {
                let j = choose|j: int| 0 <= j < s0.len() && #[trigger] w0[i] == s0[j];
            }
            lemma_listing_push(w0, x);
            assert(tagged(m0.insert(x.key, x), t) =~= tagged(m0, t).insert(x.key, x));
            assert forall|i: int| 0 <= i < w.len() implies exists|j: int| 0 <= j < s.len() && #[trigger] w[i] == s[j] by {
                if i < w0.len() {
                    let j = choose|j: int| 0 <= j < s0.len() && #[trigger] w0[i] == s0[j];
                    assert(w[i] == s[j]);
                } else {
                    assert(w[i] == s[s.len() - 1]);
                }
            }
        } else {
            assert(tagged(m0.insert(x.key, x), t) =~= tagged(m0, t));
            assert forall|i: int| 0 <= i < w.len() implies exists|j: int| 0 <= j < s.len() && #[trigger] w[i] == s[j] by {
                let j = choose|j: int| 0 <= j < s0.len() && #[trigger] w0[i] == s0[j];
                assert(w[i] == s[j]);
            }
        }
    }
}

/// Dropping the first of ascending texts leaves the rest, ascending, without it.
proof fn lemma_texts_drop_first(a: Seq<Seq<char>>)
    requires
        texts_ascending(a),
        a.len() > 0,
    ensures
        texts_ascending(a.drop_first()),
        a.drop_first().to_set() == a.to_set().remove(a[0]),
{
    let r = a.drop_first();
    assert forall|x: Seq<char>| r.to_set().contains(x) <==> a.to_set().remove(a[0]).contains(x) by {
        if r.to_set().contains(x) {
            let i = choose|i: int| 0 <= i < r.len() && r[i] == x;
            assert(a[i + 1] == x);
            assert(text_lt(a[0], a[i + 1]));
            lemma_text_lt_irreflexive(x);
        }
        if a.to_set().remove(a[0]).contains(x) {
            let i = choose|i: int| 0 <= i < a.len() && a[i] == x;
            assert(i != 0);
            assert(r[i - 1] == x);
        }
    }
    assert(r.to_set() =~= a.to_set().remove(a[0]));
}

/// Two ascending sequences of the same texts are the same sequence.
pub proof fn lemma_texts_ascending_unique(a: Seq<Seq<char>>, b: Seq<Seq<char>>)
    requires
        texts_ascending(a),
        texts_ascending(b),
        a.to_set() == b.to_set(),
    ensures
        a == b,
    decreases a.len(),
{
    if a.len() == 0 {
        a.lemma_cardinality_of_empty_set_is_0();
        b.lemma_cardinality_of_empty_set_is_0();
        assert(a =~= b);
    } else {
        b.lemma_cardinality_of_empty_set_is_0();
        a.lemma_cardinality_of_empty_set_is_0();
        assert(a.to_set().contains(a[0]));
        assert(b.to_set().contains(b[0]));
        let j = choose|j: int| 0 <= j < b.len() && b[j] == a[0];
        let i = choose|i: int| 0 <= i < a.len() && a[i] == b[0];
        if a[0] != b[0] {
            assert(i != 0 && j != 0);
            assert(text_lt(a[0], a[i]));
            assert(text_lt(b[0], b[j]));
            lemma_text_lt_total(a[0], b[0]);
        }
        lemma_texts_drop_first(a);
        lemma_texts_drop_first(b);
        lemma_texts_ascending_unique(a.drop_first(), b.drop_first());
        assert(a =~= seq![a[0]] + a.drop_first());
        assert(b =~= seq![b[0]] + b.drop_first());
    }
}

} // verus!
