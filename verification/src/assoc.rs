//! Association sequences: the mathematical model behind the broker's maps.
//!
//! Every shared table keeps its entries in a vector of key-value pairs with
//! pairwise-distinct keys, so that entry order — which the directory
//! listing and the cache snapshot expose — stays part of the model.  The
//! spec functions here define lookup and in-place update on such a
//! sequence, and the lemmas relate `assoc_update` to the concrete
//! `update`/`push` steps the executable code performs.

use vstd::prelude::*;

verus! {

/// Whether some entry carries key `k`.
pub open spec fn assoc_contains<K, V>(entries: Seq<(K, V)>, k: K) -> bool {
    exists|i: int| 0 <= i < entries.len() && (#[trigger] entries[i]).0 == k
}

/// The value under key `k`: the first entry with that key, if any.
pub open spec fn assoc_get<K, V>(entries: Seq<(K, V)>, k: K) -> Option<V>
    decreases entries.len(),
{
    if entries.len() == 0 {
        None
    } else if entries[0].0 == k {
        Some(entries[0].1)
    } else {
        assoc_get(entries.drop_first(), k)
    }
}

/// Binds `k` to `v`: replaces the first entry with key `k` in place, or
/// appends a new entry when no entry has that key.
pub open spec fn assoc_update<K, V>(entries: Seq<(K, V)>, k: K, v: V) -> Seq<(K, V)>
    decreases entries.len(),
{
    if entries.len() == 0 {
        seq![(k, v)]
    } else if entries[0].0 == k {
        seq![(k, v)] + entries.drop_first()
    } else {
        seq![entries[0]] + assoc_update(entries.drop_first(), k, v)
    }
}

/// Drops the first entry with key `k`, if any.
pub open spec fn assoc_remove<K, V>(entries: Seq<(K, V)>, k: K) -> Seq<(K, V)>
    decreases entries.len(),
{
    if entries.len() == 0 {
        entries
    } else if entries[0].0 == k {
        entries.drop_first()
    } else {
        seq![entries[0]] + assoc_remove(entries.drop_first(), k)
    }
}

/// No two entries share a key.
pub open spec fn assoc_keys_unique<K, V>(entries: Seq<(K, V)>) -> bool {
    forall|i: int, j: int|
        #![trigger entries[i], entries[j]]
        0 <= i < j < entries.len() ==> entries[i].0 != entries[j].0
}

/// `assoc_contains` holds exactly when `assoc_get` finds something.
pub proof fn lemma_contains_iff_get_some<K, V>(entries: Seq<(K, V)>, k: K)
    ensures
        assoc_contains(entries, k) <==> assoc_get(entries, k) is Some,
    decreases entries.len(),
{
    if entries.len() > 0 && entries[0].0 != k {
        lemma_contains_iff_get_some(entries.drop_first(), k);
        if assoc_contains(entries, k) {
            let i = choose|i: int| 0 <= i < entries.len() && (#[trigger] entries[i]).0 == k;
            assert(entries.drop_first()[i - 1] == entries[i]);
        }
        if assoc_contains(entries.drop_first(), k) {
            let i = choose|i: int|
                0 <= i < entries.drop_first().len() && (#[trigger] entries.drop_first()[i]).0 == k;
            assert(entries[i + 1] == entries.drop_first()[i]);
        }
    }
}

/// When the first entry carrying `k` stands at `idx`, updating is the
/// in-place `update` at `idx`.
pub proof fn lemma_assoc_update_found<K, V>(entries: Seq<(K, V)>, k: K, v: V, idx: int)
    requires
        0 <= idx < entries.len(),
        entries[idx].0 == k,
        forall|j: int| 0 <= j < idx ==> (#[trigger] entries[j]).0 != k,
    ensures
        assoc_update(entries, k, v) == entries.update(idx, (k, v)),
    decreases idx,
{
    if idx == 0 {
        assert(assoc_update(entries, k, v) =~= entries.update(0, (k, v)));
    } else {
        let rest = entries.drop_first();
        assert(forall|j: int| 0 <= j < idx - 1 ==> (#[trigger] rest[j]).0 != k);
        lemma_assoc_update_found(rest, k, v, idx - 1);
        assert(assoc_update(entries, k, v) =~= entries.update(idx, (k, v)));
    }
}

/// When no entry carries `k`, updating is a `push`.
pub proof fn lemma_assoc_update_absent<K, V>(entries: Seq<(K, V)>, k: K, v: V)
    requires
        !assoc_contains(entries, k),
    ensures
        assoc_update(entries, k, v) == entries.push((k, v)),
    decreases entries.len(),
{
    if entries.len() == 0 {
        assert(assoc_update(entries, k, v) =~= entries.push((k, v)));
    } else {
        let rest = entries.drop_first();
        assert(entries[0].0 != k);
        assert(!assoc_contains(rest, k)) by {
            if assoc_contains(rest, k) {
                let i = choose|i: int| 0 <= i < rest.len() && (#[trigger] rest[i]).0 == k;
                assert(entries[i + 1] == rest[i]);
            }
        }
        lemma_assoc_update_absent(rest, k, v);
        assert(assoc_update(entries, k, v) =~= entries.push((k, v)));
    }
}

/// Looking up the key just bound yields the new value.
pub proof fn lemma_get_after_update_same<K, V>(entries: Seq<(K, V)>, k: K, v: V)
    ensures
        assoc_get(assoc_update(entries, k, v), k) == Some(v),
    decreases entries.len(),
{
    if entries.len() > 0 && entries[0].0 != k {
        lemma_get_after_update_same(entries.drop_first(), k, v);
        let updated = assoc_update(entries, k, v);
        assert(updated.drop_first() =~= assoc_update(entries.drop_first(), k, v));
    }
}

/// Looking up any other key is unaffected by the binding.
pub proof fn lemma_get_after_update_other<K, V>(entries: Seq<(K, V)>, k: K, v: V, k2: K)
    requires
        k2 != k,
    ensures
        assoc_get(assoc_update(entries, k, v), k2) == assoc_get(entries, k2),
    decreases entries.len(),
{
    let updated = assoc_update(entries, k, v);
    if entries.len() == 0 {
        assert(updated[0] == (k, v));
        assert(updated.drop_first() =~= Seq::<(K, V)>::empty());
        assert(assoc_get(updated, k2) == assoc_get(updated.drop_first(), k2));
        assert(assoc_get(updated, k2) is None);
    } else if entries[0].0 == k {
        assert(updated[0] == (k, v));
        assert(updated.drop_first() =~= entries.drop_first());
        assert(assoc_get(updated, k2) == assoc_get(entries.drop_first(), k2));
        assert(assoc_get(entries, k2) == assoc_get(entries.drop_first(), k2));
    } else {
        lemma_get_after_update_other(entries.drop_first(), k, v, k2);
        assert(updated[0] == entries[0]);
        assert(updated.drop_first() =~= assoc_update(entries.drop_first(), k, v));
        if entries[0].0 == k2 {
            assert(assoc_get(updated, k2) == Some(updated[0].1));
            assert(assoc_get(entries, k2) == Some(entries[0].1));
        } else {
            assert(assoc_get(updated, k2) == assoc_get(updated.drop_first(), k2));
            assert(assoc_get(entries, k2) == assoc_get(entries.drop_first(), k2));
        }
    }
}

/// Binding a key keeps keys pairwise distinct.
pub proof fn lemma_update_preserves_unique<K, V>(entries: Seq<(K, V)>, k: K, v: V)
    requires
        assoc_keys_unique(entries),
    ensures
        assoc_keys_unique(assoc_update(entries, k, v)),
{
    if assoc_contains(entries, k) {
        let idx = choose|i: int| 0 <= i < entries.len() && (#[trigger] entries[i]).0 == k;
        let first = first_index_with_key(entries, k, idx);
        lemma_assoc_update_found(entries, k, v, first);
    } else {
        lemma_assoc_update_absent(entries, k, v);
    }
}

/// When the first entry carrying `k` stands at `idx`, dropping the key is
/// the in-place `remove` at `idx`.
pub proof fn lemma_assoc_remove_found<K, V>(entries: Seq<(K, V)>, k: K, idx: int)
    requires
        0 <= idx < entries.len(),
        entries[idx].0 == k,
        forall|j: int| 0 <= j < idx ==> (#[trigger] entries[j]).0 != k,
    ensures
        assoc_remove(entries, k) == entries.remove(idx),
    decreases idx,
{
    if idx == 0 {
        assert(assoc_remove(entries, k) =~= entries.remove(0));
    } else {
        let rest = entries.drop_first();
        assert(forall|j: int| 0 <= j < idx - 1 ==> (#[trigger] rest[j]).0 != k);
        lemma_assoc_remove_found(rest, k, idx - 1);
        assert(assoc_remove(entries, k) =~= entries.remove(idx));
    }
}

/// When no entry carries `k`, dropping it changes nothing.
pub proof fn lemma_assoc_remove_absent<K, V>(entries: Seq<(K, V)>, k: K)
    requires
        !assoc_contains(entries, k),
    ensures
        assoc_remove(entries, k) == entries,
    decreases entries.len(),
{
    if entries.len() > 0 {
        let rest = entries.drop_first();
        assert(entries[0].0 != k);
        assert(!assoc_contains(rest, k)) by {
            if assoc_contains(rest, k) {
                let i = choose|i: int| 0 <= i < rest.len() && (#[trigger] rest[i]).0 == k;
                assert(entries[i + 1] == rest[i]);
            }
        }
        lemma_assoc_remove_absent(rest, k);
        assert(assoc_remove(entries, k) =~= entries);
    }
}

/// The lookup lands on the first entry carrying the key.
pub proof fn lemma_assoc_get_at_first<K, V>(entries: Seq<(K, V)>, k: K, idx: int)
    requires
        0 <= idx < entries.len(),
        entries[idx].0 == k,
        forall|j: int| 0 <= j < idx ==> (#[trigger] entries[j]).0 != k,
    ensures
        assoc_get(entries, k) == Some(entries[idx].1),
    decreases idx,
{
    if idx > 0 {
        let rest = entries.drop_first();
        assert(forall|j: int| 0 <= j < idx - 1 ==> (#[trigger] rest[j]).0 != k);
        assert(rest[idx - 1] == entries[idx]);
        lemma_assoc_get_at_first(rest, k, idx - 1);
    }
}

/// An index witnessing a successful lookup.
pub proof fn index_of_key<K, V>(entries: Seq<(K, V)>, k: K) -> (i: int)
    requires
        assoc_get(entries, k) is Some,
    ensures
        0 <= i < entries.len(),
        entries[i].0 == k,
        assoc_get(entries, k) == Some(entries[i].1),
    decreases entries.len(),
{
    if entries[0].0 == k {
        0
    } else {
        let rest = entries.drop_first();
        let j = index_of_key(rest, k);
        assert(entries[j + 1] == rest[j]);
        j + 1
    }
}

/// The least index whose entry carries key `k`, given some index does.
pub proof fn first_index_with_key<K, V>(entries: Seq<(K, V)>, k: K, idx: int) -> (first: int)
    requires
        0 <= idx < entries.len(),
        entries[idx].0 == k,
    ensures
        0 <= first < entries.len(),
        entries[first].0 == k,
        forall|j: int| 0 <= j < first ==> (#[trigger] entries[j]).0 != k,
    decreases idx,
{
    if exists|j: int| 0 <= j < idx && (#[trigger] entries[j]).0 == k {
        let j = choose|j: int| 0 <= j < idx && (#[trigger] entries[j]).0 == k;
        first_index_with_key(entries, k, j)
    } else {
        idx
    }
}

} // verus!
