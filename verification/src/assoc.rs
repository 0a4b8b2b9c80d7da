//! Association sequences.
//!
//! Every replicated table in this crate — the network mapping, the lobbies,
//! the local entity store, the chunk map — is a vector of key/value pairs
//! with pairwise-distinct keys.  This module gives that shape one
//! mathematical reading, `assoc_map`, and the lemmas that relate the vector
//! operations to `Map` operations.
use vstd::prelude::*;

verus! {

/// The keys of `s` are pairwise distinct.
pub open spec fn assoc_wf<K, V>(s: Seq<(K, V)>) -> bool {
    forall|i: int, j: int| 0 <= i < j < s.len() ==> s[i].0 != s[j].0
}

/// Some entry of `s` carries the key `k`.
pub open spec fn assoc_contains<K, V>(s: Seq<(K, V)>, k: K) -> bool {
    exists|i: int| 0 <= i < s.len() && s[i].0 == k
}

/// The index of the entry carrying `k` (meaningful when one exists and the
/// keys are distinct).
pub open spec fn assoc_index_of<K, V>(s: Seq<(K, V)>, k: K) -> int {
    choose|i: int| 0 <= i < s.len() && s[i].0 == k
}

/// The finite map an association sequence denotes.
pub open spec fn assoc_map<K, V>(s: Seq<(K, V)>) -> Map<K, V> {
    Map::new(|k: K| assoc_contains(s, k), |k: K| s[assoc_index_of(s, k)].1)
}

/// Entry `i` is visible in the map: its key maps to its value.
pub proof fn lemma_assoc_at<K, V>(s: Seq<(K, V)>, i: int)
    requires
        assoc_wf(s),
        0 <= i < s.len(),
    ensures
        assoc_map(s).contains_key(s[i].0),
        assoc_map(s)[s[i].0] == s[i].1,
        assoc_index_of(s, s[i].0) == i,
{
    let k = s[i].0;
    assert(assoc_contains(s, k));
    let j = assoc_index_of(s, k);
    assert(0 <= j < s.len() && s[j].0 == k);
    assert(j == i);
}

/// Appending a fresh key inserts it into the map.
pub proof fn lemma_assoc_push<K, V>(s: Seq<(K, V)>, k: K, v: V)
    requires
        assoc_wf(s),
        !assoc_contains(s, k),
    ensures
        assoc_wf(s.push((k, v))),
        assoc_map(s.push((k, v))) == assoc_map(s).insert(k, v),
        forall|k2: K| #[trigger]
            assoc_contains(s.push((k, v)), k2) <==> (assoc_contains(s, k2) || k2 == k),
{
    let t = s.push((k, v));
    assert forall|i: int, j: int| 0 <= i < j < t.len() implies t[i].0 != t[j].0 by {
        if j < s.len() {
        } else {
            assert(t[j].0 == k);
            assert(t[i] == s[i]);
        }
    }
    assert forall|k2: K| assoc_contains(t, k2) implies #[trigger] assoc_map(t).contains_key(
        k2,
    ) && (assoc_map(t)[k2] == assoc_map(s).insert(k, v)[k2]) by {
        let i = assoc_index_of(t, k2);
        assert(0 <= i < t.len() && t[i].0 == k2);
        lemma_assoc_at(t, i);
        if i < s.len() {
            assert(t[i] == s[i]);
            lemma_assoc_at(s, i);
            assert(k2 != k);
        } else {
            assert(k2 == k);
        }
    }
    assert forall|k2: K| !assoc_contains(t, k2) implies !assoc_contains(s, k2) && k2 != k by {
        if assoc_contains(s, k2) {
            let i = assoc_index_of(s, k2);
            assert(t[i].0 == k2);
        }
        assert(t[s.len() as int].0 == k);
    }
    assert(assoc_map(t) =~= assoc_map(s).insert(k, v));
}

/// Removing entry `i` removes exactly its key from the map.
pub proof fn lemma_assoc_remove<K, V>(s: Seq<(K, V)>, i: int)
    requires
        assoc_wf(s),
        0 <= i < s.len(),
    ensures
        assoc_wf(s.remove(i)),
        assoc_map(s.remove(i)) == assoc_map(s).remove(s[i].0),
        !assoc_contains(s.remove(i), s[i].0),
        forall|k2: K| #[trigger]
            assoc_contains(s.remove(i), k2) <==> (assoc_contains(s, k2) && k2 != s[i].0),
{
    let k = s[i].0;
    let t = s.remove(i);
    assert forall|a: int, b: int| 0 <= a < b < t.len() implies t[a].0 != t[b].0 by {
        let a2 = if a < i { a } else { a + 1 };
        let b2 = if b < i { b } else { b + 1 };
        assert(t[a] == s[a2]);
        assert(t[b] == s[b2]);
    }
    assert forall|k2: K| assoc_contains(t, k2) implies #[trigger] assoc_map(t).contains_key(
        k2,
    ) && k2 != k && assoc_map(s).contains_key(k2) && assoc_map(t)[k2] == assoc_map(s)[k2] by {
        let a = assoc_index_of(t, k2);
        assert(0 <= a < t.len() && t[a].0 == k2);
        lemma_assoc_at(t, a);
        let a2 = if a < i { a } else { a + 1 };
        assert(t[a] == s[a2]);
        lemma_assoc_at(s, a2);
    }
    assert forall|k2: K| !assoc_contains(t, k2) implies k2 == k || !assoc_contains(s, k2) by {
        if k2 != k && assoc_contains(s, k2) {
            let a = assoc_index_of(s, k2);
            assert(0 <= a < s.len() && s[a].0 == k2);
            assert(a != i);
            if a < i {
                assert(t[a].0 == k2);
            } else {
                assert(t[a - 1].0 == k2);
            }
        }
    }
    assert(!assoc_contains(t, k)) by {
        if assoc_contains(t, k) {
        }
    }
    assert(assoc_map(t) =~= assoc_map(s).remove(k));
}

/// Overwriting the value of entry `i`, key kept, updates the map at that
/// key.
pub proof fn lemma_assoc_update<K, V>(s: Seq<(K, V)>, i: int, v: V)
    requires
        assoc_wf(s),
        0 <= i < s.len(),
    ensures
        assoc_wf(s.update(i, (s[i].0, v))),
        assoc_map(s.update(i, (s[i].0, v))) == assoc_map(s).insert(s[i].0, v),
        forall|k2: K| #[trigger]
            assoc_contains(s.update(i, (s[i].0, v)), k2) <==> assoc_contains(s, k2),
{
    let k = s[i].0;
    let t = s.update(i, (k, v));
    assert forall|a: int, b: int| 0 <= a < b < t.len() implies t[a].0 != t[b].0 by {
        assert(s[a].0 != s[b].0);
    }
    assert forall|k2: K| assoc_contains(t, k2) implies #[trigger] assoc_map(t).contains_key(
        k2,
    ) && assoc_map(t)[k2] == assoc_map(s).insert(k, v)[k2] by {
        let a = assoc_index_of(t, k2);
        assert(0 <= a < t.len() && t[a].0 == k2);
        lemma_assoc_at(t, a);
        assert(s[a].0 == k2);
        lemma_assoc_at(s, a);
    }
    assert forall|k2: K| !assoc_contains(t, k2) implies !(assoc_map(s).insert(
        k,
        v,
    )).contains_key(k2) by {
        if assoc_contains(s, k2) {
            let a = assoc_index_of(s, k2);
            assert(t[a].0 == k2);
        }
        assert(t[i].0 == k);
    }
    assert(assoc_map(t) =~= assoc_map(s).insert(k, v));
}

/// What a pushed sequence contains: the old contents and the new element.
pub proof fn lemma_push_contains<A>(s: Seq<A>, x: A, y: A)
    ensures
        s.push(x).contains(y) <==> (s.contains(y) || y == x),
{
    if s.push(x).contains(y) {
        let i = choose|i: int| 0 <= i < s.push(x).len() && s.push(x)[i] == y;
        if i < s.len() {
            assert(s[i] == y);
        }
    }
    if s.contains(y) {
        let i = choose|i: int| 0 <= i < s.len() && s[i] == y;
        assert(s.push(x)[i] == y);
    }
    assert(s.push(x)[s.len() as int] == x);
}

/// Pushing a fresh element keeps a sequence duplicate-free.
pub proof fn lemma_push_no_duplicates<A>(s: Seq<A>, x: A)
    requires
        s.no_duplicates(),
        !s.contains(x),
    ensures
        s.push(x).no_duplicates(),
{
    let t = s.push(x);
    assert forall|i: int, j: int| 0 <= i < j < t.len() implies t[i] != t[j] by {
        if j == s.len() {
            assert(s[i] == t[i]);
        }
    }
}

/// With distinct keys, an association sequence and its map have the same
/// size.
pub proof fn lemma_assoc_dom_len<K, V>(s: Seq<(K, V)>)
    requires
        assoc_wf(s),
    ensures
        assoc_map(s).dom().len() == s.len(),
        assoc_map(s).dom().finite(),
    decreases s.len(),
{
    if s.len() == 0 {
        lemma_assoc_empty(s);
    } else {
        let i = s.len() - 1;
        let k = s[i].0;
        lemma_assoc_at(s, i);
        lemma_assoc_remove(s, i);
        lemma_assoc_dom_len(s.remove(i));
        assert(assoc_map(s).dom() =~= assoc_map(s.remove(i)).dom().insert(k));
    }
}

/// Reversal keeps a sequence's elements.
pub proof fn lemma_reverse_contains<A>(s: Seq<A>, x: A)
    ensures
        s.reverse().contains(x) <==> s.contains(x),
{
    if s.reverse().contains(x) {
        let i = choose|i: int| 0 <= i < s.reverse().len() && s.reverse()[i] == x;
        assert(s[s.len() - 1 - i] == x);
    }
    if s.contains(x) {
        let i = choose|i: int| 0 <= i < s.len() && s[i] == x;
        assert(s.reverse()[s.len() - 1 - i] == x);
    }
}

/// An empty association sequence denotes the empty map.
pub proof fn lemma_assoc_empty<K, V>(s: Seq<(K, V)>)
    requires
        s.len() == 0,
    ensures
        assoc_wf(s),
        assoc_map(s) == Map::<K, V>::empty(),
{
    assert forall|k: K| !assoc_contains(s, k) by {}
    assert(assoc_map(s) =~= Map::<K, V>::empty());
}

} // verus!
