//! The subscription registry: which connection follows which subject.
//!
//! Subscriptions are exclusive: a connection identifier sits under at most
//! one subject key at a time, so subscribing first clears the identifier
//! from every set.  The wildcard subject `"*"` lives in the same table and
//! is folded into `targets_for`.

use crate::assoc::{
    assoc_contains, assoc_get, assoc_keys_unique, assoc_update, first_index_with_key,
    lemma_assoc_get_at_first, lemma_assoc_update_absent, lemma_assoc_update_found,
    lemma_update_preserves_unique,
};
use vstd::prelude::*;

verus! {

/// Whether the identifier sequence carries `x`.
pub open spec fn seq_has(v: Seq<usize>, x: int) -> bool {
    exists|i: int| 0 <= i < v.len() && (#[trigger] v[i]) as int == x
}

/// No identifier appears twice.
pub open spec fn ids_unique(v: Seq<usize>) -> bool {
    forall|i: int, j: int| #![trigger v[i], v[j]] 0 <= i < j < v.len() ==> v[i] != v[j]
}

/// The identifiers as a set.
pub open spec fn ids_set(v: Seq<usize>) -> Set<int> {
    Set::new(|x: int| seq_has(v, x))
}

/// The model of the registry: subject name to set of connection
/// identifiers, in table order.
pub open spec fn registry_view(entries: Seq<(String, Vec<usize>)>) -> Seq<(Seq<char>, Set<int>)> {
    Seq::new(entries.len(), |i: int| (entries[i].0@, ids_set(entries[i].1@)))
}

/// Every set with `id` taken out.
pub open spec fn clear_id(r: Seq<(Seq<char>, Set<int>)>, id: int) -> Seq<(Seq<char>, Set<int>)> {
    r.map_values(|e: (Seq<char>, Set<int>)| (e.0, e.1.remove(id)))
}

/// The set under `k`, or the empty set.
pub open spec fn set_under(r: Seq<(Seq<char>, Set<int>)>, k: Seq<char>) -> Set<int> {
    match assoc_get(r, k) {
        Some(s) => s,
        None => Set::empty(),
    }
}

/// What subscribing does: clear `id` from every set, then add it to the
/// set under `name`, creating that set if absent.
pub open spec fn spec_subscribe(r: Seq<(Seq<char>, Set<int>)>, id: int, name: Seq<char>) -> Seq<
    (Seq<char>, Set<int>),
> {
    let cleared = clear_id(r, id);
    assoc_update(cleared, name, set_under(cleared, name).insert(id))
}

/// What unsubscribing does: drop `id` from the set under `name`, if that
/// set exists.
pub open spec fn spec_unsubscribe(r: Seq<(Seq<char>, Set<int>)>, id: int, name: Seq<char>) -> Seq<
    (Seq<char>, Set<int>),
> {
    match assoc_get(r, name) {
        Some(s) => assoc_update(r, name, s.remove(id)),
        None => r,
    }
}

/// The fan-out targets for a subject: its own set joined with the
/// wildcard's.
pub open spec fn spec_targets(r: Seq<(Seq<char>, Set<int>)>, name: Seq<char>) -> Set<int> {
    set_under(r, name).union(set_under(r, "*"@))
}

/// No identifier sits under two different entries.
pub open spec fn exclusive(r: Seq<(Seq<char>, Set<int>)>) -> bool {
    forall|i: int, j: int, id: int|
        #![trigger r[i].1.contains(id), r[j].1.contains(id)]
        0 <= i < r.len() && 0 <= j < r.len() && i != j ==> !(r[i].1.contains(id)
            && r[j].1.contains(id))
}

pub struct SubscriptionRegistry {
    entries: Vec<(String, Vec<usize>)>,
}

impl View for SubscriptionRegistry {
    type V = Seq<(Seq<char>, Set<int>)>;

    closed spec fn view(&self) -> Seq<(Seq<char>, Set<int>)> {
        registry_view(self.entries@)
    }
}

/// True iff `x` occurs in `v`, as `seq_has` says.
fn vec_has(v: &Vec<usize>, x: usize) -> (b: bool)
    ensures
        b == seq_has(v@, x as int),
{
    let mut i: usize = 0;
    while i < v.len()
        invariant
            i <= v.len(),
            forall|j: int| 0 <= j < i ==> (#[trigger] v@[j]) as int != x as int,
        decreases v.len() - i,
    {
        if v[i] == x {
            return true;
        }
        i = i + 1;
    }
    false
}

/// Takes the one occurrence of `id` out of `ids`, if present.
fn remove_id(ids: &mut Vec<usize>, id: usize)
    requires
        ids_unique(old(ids)@),
    ensures
        ids_unique(final (ids)@),
        ids_set(final (ids)@) == ids_set(old(ids)@).remove(id as int),
        !seq_has(final (ids)@, id as int),
{
    let mut i: usize = 0;
    while i < ids.len()
        invariant
            i <= ids.len(),
            ids_unique(ids@),
            ids@ == old(ids)@,
            forall|j: int| 0 <= j < i ==> (#[trigger] ids@[j]) as int != id as int,
        decreases ids.len() - i,
    {
        if ids[i] == id {
            let _removed = ids.remove(i);
            proof {
                assert forall|x: int| seq_has(ids@, x) <==> ids_set(old(ids)@).remove(
                    id as int,
                ).contains(x) by {
                    if seq_has(ids@, x) {
                        let j = choose|j: int| 0 <= j < ids@.len() && (#[trigger] ids@[j]) as int
                            == x;
                        if j < i {
                            assert(old(ids)@[j] as int == x);
                        } else {
                            assert(old(ids)@[j + 1] as int == x);
                        }
                    }
                    if ids_set(old(ids)@).remove(id as int).contains(x) {
                        let j = choose|j: int|
                            0 <= j < old(ids)@.len() && (#[trigger] old(ids)@[j]) as int == x;
                        if j < i {
                            assert(ids@[j] as int == x);
                        } else {
                            assert(old(ids)@[j] != id);
                            assert(j != i);
                            assert(ids@[j - 1] as int == x);
                        }
                    }
                }
                assert(ids_set(ids@) =~= ids_set(old(ids)@).remove(id as int));
                assert(!seq_has(ids@, id as int)) by {
                    if seq_has(ids@, id as int) {
                        let j = choose|j: int|
                            0 <= j < ids@.len() && (#[trigger] ids@[j]) as int == id as int;
                        if j < i {
                            assert(ids@[j] as int != id as int);
                        } else {
                            assert(old(ids)@[j + 1] == old(ids)@[i as int]);
                        }
                    }
                }
            }
            return ;
        }
        i = i + 1;
    }
    proof {
        assert(!seq_has(ids@, id as int));
        assert(ids_set(ids@) =~= ids_set(old(ids)@).remove(id as int));
    }
}

/// Membership in a pushed identifier sequence.
pub proof fn lemma_seq_has_push(v: Seq<usize>, y: usize, x: int)
    ensures
        seq_has(v.push(y), x) <==> (seq_has(v, x) || y as int == x),
{
    if seq_has(v.push(y), x) {
        let j = choose|j: int| 0 <= j < v.push(y).len() && (#[trigger] v.push(y)[j]) as int == x;
        if j < v.len() {
            assert(v[j] as int == x);
        }
    }
    if seq_has(v, x) {
        let j = choose|j: int| 0 <= j < v.len() && (#[trigger] v[j]) as int == x;
        assert(v.push(y)[j] as int == x);
    }
    assert(v.push(y)[v.len() as int] == y);
}

/// Pushing a fresh identifier keeps the sequence duplicate-free.
proof fn lemma_ids_unique_push(v: Seq<usize>, y: usize)
    requires
        ids_unique(v),
        !seq_has(v, y as int),
    ensures
        ids_unique(v.push(y)),
{
    let w = v.push(y);
    assert forall|i: int, j: int| 0 <= i < j < w.len() implies w[i] != w[j] by {
        if j == w.len() - 1 {
            assert(v[i] as int != y as int);
        }
    }
}

/// Index of the first entry under `name`, if any.
fn find_entry(entries: &Vec<(String, Vec<usize>)>, name: &String) -> (r: Option<usize>)
    ensures
        match r {
            Some(i) => i < entries.len() && registry_view(entries@)[i as int].0 == name@ && forall|
                j: int,
            | 0 <= j < i ==> (#[trigger] registry_view(entries@)[j]).0 != name@,
            None => !assoc_contains(registry_view(entries@), name@),
        },
{
    let mut i: usize = 0;
    while i < entries.len()
        invariant
            i <= entries.len(),
            forall|j: int| 0 <= j < i ==> (#[trigger] registry_view(entries@)[j]).0 != name@,
        decreases entries.len() - i,
    {
        if entries[i].0 == *name {
            return Some(i);
        }
        assert(registry_view(entries@)[i as int].0 != name@);
        i = i + 1;
    }
    None
}

impl SubscriptionRegistry {
    /// Distinct subject keys, duplicate-free identifier vectors, and the
    /// exclusivity of subscriptions.
    pub closed spec fn wf(&self) -> bool {
        &&& assoc_keys_unique(self@)
        &&& forall|i: int|
            0 <= i < self.entries@.len() ==> ids_unique(#[trigger] self.entries@[i].1@)
        &&& exclusive(self@)
    }

    /// A well-formed registry keeps subscriptions exclusive.
    pub proof fn lemma_wf_exclusive(&self)
        requires
            self.wf(),
        ensures
            exclusive(self@),
            assoc_keys_unique(self@),
    {
    }

    pub fn new() -> (r: Self)
        ensures
            r.wf(),
            r@ == Seq::<(Seq<char>, Set<int>)>::empty(),
    {
        let r = SubscriptionRegistry { entries: Vec::new() };
        proof {
            assert(r@ =~= Seq::<(Seq<char>, Set<int>)>::empty());
        }
        r
    }

    /// Moves `id` to the set under `stock_name`, exactly as
    /// `spec_subscribe` says.
    pub fn subscribe(&mut self, id: usize, stock_name: &String)
        requires
            old(self).wf(),
        ensures
            final (self).wf(),
            final (self)@ == spec_subscribe(old(self)@, id as int, stock_name@),
    {
        let ghost old_view = self@;
        let ghost cleared = clear_id(old_view, id as int);
        // First pass: take `id` out of every set.
        let mut i: usize = 0;
        while i < self.entries.len()
            invariant
                i <= self.entries@.len(),
                self.entries@.len() == old(self).entries@.len(),
                old_view == registry_view(old(self).entries@),
                forall|j: int|
                    i <= j < self.entries@.len() ==> self.entries@[j] == old(self).entries@[j],
                forall|j: int|
                    0 <= j < self.entries@.len() ==> ids_unique(#[trigger] self.entries@[j].1@),
                forall|j: int|
                    0 <= j < i ==> (#[trigger] self.entries@[j]).0@ == old(self).entries@[j].0@
                        && ids_set(self.entries@[j].1@) == ids_set(old(self).entries@[j].1@).remove(
                        id as int,
                    ) && !seq_has(self.entries@[j].1@, id as int),
            decreases self.entries.len() - i,
        {
            let entry = self.entries.remove(i);
            let entry_name = entry.0;
            let mut ids = entry.1;
            remove_id(&mut ids, id);
            self.entries.insert(i, (entry_name, ids));
            i = i + 1;
        }
        proof {
            assert(self@ =~= cleared);
        }
        let ghost mid_entries = self.entries@;
        // Second pass: add `id` under `stock_name`.
        match find_entry(&self.entries, stock_name) {
            Some(idx) => {
                proof {
                    lemma_assoc_get_at_first(self@, stock_name@, idx as int);
                    lemma_assoc_update_found(
                        self@,
                        stock_name@,
                        set_under(cleared, stock_name@).insert(id as int),
                        idx as int,
                    );
                }
                let entry = self.entries.remove(idx);
                let entry_name = entry.0;
                let mut ids = entry.1;
                ids.push(id);
                self.entries.insert(idx, (entry_name, ids));
                proof {
                    assert(ids@ == mid_entries[idx as int].1@.push(id));
                    assert forall|x: int| seq_has(ids@, x) <==> ids_set(
                        mid_entries[idx as int].1@,
                    ).insert(id as int).contains(x) by {
                        if seq_has(ids@, x) {
                            let j = choose|j: int|
                                0 <= j < ids@.len() && (#[trigger] ids@[j]) as int == x;
                            if j < ids@.len() - 1 {
                                assert(mid_entries[idx as int].1@[j] as int == x);
                            }
                        }
                        if x != id as int && ids_set(mid_entries[idx as int].1@).contains(x) {
                            let j = choose|j: int|
                                0 <= j < mid_entries[idx as int].1@.len() && (
                                #[trigger] mid_entries[idx as int].1@[j]) as int == x;
                            assert(ids@[j] as int == x);
                        }
                        assert(ids@[ids@.len() - 1] as int == id as int);
                    }
                    assert(ids_set(ids@) =~= ids_set(mid_entries[idx as int].1@).insert(
                        id as int,
                    ));
                    assert(self@ =~= cleared.update(
                        idx as int,
                        (stock_name@, set_under(cleared, stock_name@).insert(id as int)),
                    ));
                    assert(ids_unique(ids@)) by {
                        assert(!seq_has(mid_entries[idx as int].1@, id as int));
                    }
                    self.lemma_subscribe_wf(old_view, id as int, stock_name@);
                }
            },
            None => {
                proof {
                    lemma_assoc_update_absent(
                        self@,
                        stock_name@,
                        set_under(cleared, stock_name@).insert(id as int),
                    );
                    crate::assoc::lemma_contains_iff_get_some(self@, stock_name@);
                }
                let mut ids: Vec<usize> = Vec::new();
                ids.push(id);
                self.entries.push((stock_name.clone(), ids));
                proof {
                    assert(ids_set(ids@) =~= Set::empty().insert(id as int)) by {
                        assert(ids@[0] as int == id as int);
                    }
                    assert(self@ =~= cleared.push(
                        (stock_name@, set_under(cleared, stock_name@).insert(id as int)),
                    ));
                    self.lemma_subscribe_wf(old_view, id as int, stock_name@);
                }
            },
        }
    }

    /// The well-formedness bookkeeping shared by both `subscribe` paths.
    proof fn lemma_subscribe_wf(&self, old_view: Seq<(Seq<char>, Set<int>)>, id: int, name: Seq<
        char,
    >)
        requires
            assoc_keys_unique(old_view),
            exclusive(old_view),
            self@ == spec_subscribe(old_view, id, name),
            forall|i: int|
                0 <= i < self.entries@.len() ==> ids_unique(#[trigger] self.entries@[i].1@),
        ensures
            self.wf(),
    {
        lemma_subscribe_view_wf(old_view, id, name);
    }

    /// Drops `id` from the set under `stock_name`, exactly as
    /// `spec_unsubscribe` says.
    pub fn unsubscribe(&mut self, id: usize, stock_name: &String)
        requires
            old(self).wf(),
        ensures
            final (self).wf(),
            final (self)@ == spec_unsubscribe(old(self)@, id as int, stock_name@),
    {
        let ghost old_view = self@;
        match find_entry(&self.entries, stock_name) {
            Some(idx) => {
                proof {
                    lemma_assoc_get_at_first(old_view, stock_name@, idx as int);
                    lemma_assoc_update_found(
                        old_view,
                        stock_name@,
                        old_view[idx as int].1.remove(id as int),
                        idx as int,
                    );
                }
                let entry = self.entries.remove(idx);
                let entry_name = entry.0;
                let mut ids = entry.1;
                remove_id(&mut ids, id);
                self.entries.insert(idx, (entry_name, ids));
                proof {
                    assert(self@ =~= old_view.update(
                        idx as int,
                        (stock_name@, old_view[idx as int].1.remove(id as int)),
                    ));
                    lemma_update_preserves_unique(
                        old_view,
                        stock_name@,
                        old_view[idx as int].1.remove(id as int),
                    );
                    assert(exclusive(self@)) by {
                        assert(forall|i: int, x: int|
                            0 <= i < self@.len() && #[trigger] self@[i].1.contains(x)
                                ==> old_view[i].1.contains(x));
                    }
                }
            },
            None => {
                proof {
                    crate::assoc::lemma_contains_iff_get_some(old_view, stock_name@);
                }
            },
        }
    }

    /// The fan-out targets for `stock_name`: its set joined with the
    /// wildcard's, without duplicates.
    pub fn targets_for(&self, stock_name: &String) -> (r: Vec<usize>)
        ensures
            ids_unique(r@),
            forall|x: int| seq_has(r@, x) <==> spec_targets(self@, stock_name@).contains(x),
    {
        let mut r: Vec<usize> = Vec::new();
        let ghost own = set_under(self@, stock_name@);
        match find_entry(&self.entries, stock_name) {
            Some(idx) => {
                proof {
                    lemma_assoc_get_at_first(self@, stock_name@, idx as int);
                }
                let ids = &self.entries[idx].1;
                let mut i: usize = 0;
                while i < ids.len()
                    invariant
                        i <= ids@.len(),
                        idx < self.entries@.len(),
                        ids@ == self.entries@[idx as int].1@,
                        own == ids_set(ids@),
                        ids_unique(r@),
                        forall|x: int|
                            seq_has(r@, x) <==> seq_has(ids@.subrange(0, i as int), x),
                    decreases ids@.len() - i,
                {
                    let ghost prefix = ids@.subrange(0, i as int);
                    let ghost r_prev = r@;
                    proof {
                        assert(ids@.subrange(0, (i + 1) as int) =~= prefix.push(ids@[i as int]));
                    }
                    let had = vec_has(&r, ids[i]);
                    if !had {
                        r.push(ids[i]);
                        proof {
                            lemma_ids_unique_push(r_prev, ids@[i as int]);
                        }
                    }
                    proof {
                        assert forall|x: int|
                            seq_has(r@, x) <==> seq_has(
                                prefix.push(ids@[i as int]),
                                x,
                            ) by {
                            lemma_seq_has_push(prefix, ids@[i as int], x);
                            if !had {
                                lemma_seq_has_push(r_prev, ids@[i as int], x);
                            }
                        }
                    }
                    i = i + 1;
                }
                proof {
                    assert(ids@.subrange(0, ids@.len() as int) =~= ids@);
                }
            },
            None => {
                proof {
                    crate::assoc::lemma_contains_iff_get_some(self@, stock_name@);
                }
            },
        }
        // Join in the wildcard's set.
        let wildcard = String::from_str("*");
        let ghost wc = set_under(self@, "*"@);
        match find_entry(&self.entries, &wildcard) {
            Some(idx) => {
                proof {
                    lemma_assoc_get_at_first(self@, "*"@, idx as int);
                }
                let ids = &self.entries[idx].1;
                let mut i: usize = 0;
                while i < ids.len()
                    invariant
                        i <= ids@.len(),
                        idx < self.entries@.len(),
                        ids@ == self.entries@[idx as int].1@,
                        wc == ids_set(ids@),
                        ids_unique(r@),
                        forall|x: int|
                            #![trigger seq_has(r@, x)]
                            seq_has(r@, x) <==> own.contains(x) || seq_has(
                                ids@.subrange(0, i as int),
                                x,
                            ),
                    decreases ids@.len() - i,
                {
                    let ghost prefix = ids@.subrange(0, i as int);
                    let ghost r_prev = r@;
                    proof {
                        assert(ids@.subrange(0, (i + 1) as int) =~= prefix.push(ids@[i as int]));
                    }
                    let had = vec_has(&r, ids[i]);
                    if !had {
                        r.push(ids[i]);
                        proof {
                            lemma_ids_unique_push(r_prev, ids@[i as int]);
                        }
                    }
                    proof {
                        assert forall|x: int| #![trigger seq_has(r@, x)]
                            seq_has(r@, x) <==> own.contains(x) || seq_has(
                                ids@.subrange(0, (i + 1) as int),
                                x,
                            ) by {
                            lemma_seq_has_push(prefix, ids@[i as int], x);
                            assert(seq_has(r_prev, x) <==> own.contains(x) || seq_has(prefix, x));
                            if !had {
                                lemma_seq_has_push(r_prev, ids@[i as int], x);
                            } else {
                                assert(r@ == r_prev);
                                if ids@[i as int] as int == x {
                                    assert(seq_has(r@, x));
                                }
                            }
                        }
                    }
                    i = i + 1;
                }
                proof {
                    assert(ids@.subrange(0, ids@.len() as int) =~= ids@);
                }
            },
            None => {
                proof {
                    crate::assoc::lemma_contains_iff_get_some(self@, "*"@);
                }
            },
        }
        r
    }
}

/// Law: subscribing moves the identifier — afterwards it sits in the set
/// under the new name and in no other.
pub proof fn lemma_subscribe_exclusive_membership(
    r: Seq<(Seq<char>, Set<int>)>,
    id: int,
    name: Seq<char>,
)
    ensures
        ({
            let r2 = spec_subscribe(r, id, name);
            &&& set_under(r2, name).contains(id)
            &&& forall|i: int|
                0 <= i < r2.len() && (#[trigger] r2[i]).0 != name ==> !r2[i].1.contains(id)
        }),
{
    let cleared = clear_id(r, id);
    let v = set_under(cleared, name).insert(id);
    let r2 = spec_subscribe(r, id, name);
    crate::assoc::lemma_get_after_update_same(cleared, name, v);
    if assoc_contains(cleared, name) {
        let w = choose|i: int| 0 <= i < cleared.len() && (#[trigger] cleared[i]).0 == name;
        let first = first_index_with_key(cleared, name, w);
        lemma_assoc_update_found(cleared, name, v, first);
        assert forall|i: int| 0 <= i < r2.len() && (#[trigger] r2[i]).0 != name implies !r2[
            i
        ].1.contains(id) by {
            assert(i != first);
            assert(r2[i].1 == cleared[i].1);
            assert(cleared[i] == (r[i].0, r[i].1.remove(id)));
        }
    } else {
        lemma_assoc_update_absent(cleared, name, v);
        assert forall|i: int| 0 <= i < r2.len() && (#[trigger] r2[i]).0 != name implies !r2[
            i
        ].1.contains(id) by {
            assert(i != r2.len() - 1);
            assert(r2[i].1 == cleared[i].1);
            assert(cleared[i] == (r[i].0, r[i].1.remove(id)));
        }
    }
}

/// Law: subscribing keeps subscriptions exclusive, and keys distinct.
pub proof fn lemma_subscribe_view_wf(r: Seq<(Seq<char>, Set<int>)>, id: int, name: Seq<char>)
    requires
        assoc_keys_unique(r),
        exclusive(r),
    ensures
        assoc_keys_unique(spec_subscribe(r, id, name)),
        exclusive(spec_subscribe(r, id, name)),
{
    let cleared = clear_id(r, id);
    let v = set_under(cleared, name).insert(id);
    let r2 = spec_subscribe(r, id, name);
    assert(assoc_keys_unique(cleared)) by {
        assert(forall|i: int|
            0 <= i < cleared.len() ==> (#[trigger] cleared[i]).0 == r[i].0);
    }
    lemma_update_preserves_unique(cleared, name, v);
    if assoc_contains(cleared, name) {
        let w = choose|i: int| 0 <= i < cleared.len() && (#[trigger] cleared[i]).0 == name;
        let first = first_index_with_key(cleared, name, w);
        lemma_assoc_update_found(cleared, name, v, first);
        lemma_assoc_get_at_first(cleared, name, first);
        assert forall|i: int, j: int, x: int|
            0 <= i < r2.len() && 0 <= j < r2.len() && i != j implies !((#[trigger] r2[
            i
        ].1.contains(x)) && (#[trigger] r2[j].1.contains(x))) by {
            if r2[i].1.contains(x) && r2[j].1.contains(x) {
                if x == id {
                    let m = if i == first {
                        j
                    } else {
                        i
                    };
                    assert(r2[m].1 == cleared[m].1);
                    assert(cleared[m] == (r[m].0, r[m].1.remove(id)));
                } else {
                    assert(cleared[first] == (r[first].0, r[first].1.remove(id)));
                    assert(r[i].1.contains(x)) by {
                        if i != first {
                            assert(cleared[i] == (r[i].0, r[i].1.remove(id)));
                        }
                    }
                    assert(r[j].1.contains(x)) by {
                        if j != first {
                            assert(cleared[j] == (r[j].0, r[j].1.remove(id)));
                        }
                    }
                }
            }
        }
    } else {
        lemma_assoc_update_absent(cleared, name, v);
        crate::assoc::lemma_contains_iff_get_some(cleared, name);
        assert(v =~= Set::empty().insert(id));
        let last = r2.len() - 1;
        assert forall|i: int, j: int, x: int|
            0 <= i < r2.len() && 0 <= j < r2.len() && i != j implies !((#[trigger] r2[
            i
        ].1.contains(x)) && (#[trigger] r2[j].1.contains(x))) by {
            if r2[i].1.contains(x) && r2[j].1.contains(x) {
                if x == id {
                    let m = if i == last {
                        j
                    } else {
                        i
                    };
                    assert(r2[m].1 == cleared[m].1);
                    assert(cleared[m] == (r[m].0, r[m].1.remove(id)));
                } else {
                    assert(i != last && j != last);
                    assert(cleared[i] == (r[i].0, r[i].1.remove(id)));
                    assert(cleared[j] == (r[j].0, r[j].1.remove(id)));
                }
            }
        }
    }
}

} // verus!
