//! The broker: the three shared tables and the decisions the two
//! network-facing loops make on them.
//!
//! The socket work itself — accepting connections, reading frames,
//! sending — lives outside this crate.  What each loop decides per
//! message is here: admitting an update and fanning it out to every
//! interested queue, and changing a connection's subscription, with the
//! wildcard backfill.

use crate::assoc::{
    assoc_contains, assoc_keys_unique, assoc_update, first_index_with_key, index_of_key,
    lemma_assoc_get_at_first, lemma_assoc_update_found, lemma_contains_iff_get_some,
};
use crate::codec::{decoded_pairs, field_value, get_field, parse_json};
use crate::outbound_queue::{spec_enqueue, OutboundQueueTable};
use crate::stock_information::info_of;
use crate::stock_information_cache::{snapshot_of, spec_admit, StockInformationCache};
use crate::subscriptions::{
    exclusive, ids_set, ids_unique, lemma_seq_has_push, seq_has, set_under, spec_subscribe,
    spec_targets, SubscriptionRegistry,
};
use vstd::prelude::*;

verus! {

/// What fanning one message out does: every queue whose connection is a
/// target gains the message at its tail; every other queue is untouched.
pub open spec fn spec_fanout(
    q: Seq<(int, Seq<Seq<char>>)>,
    targets: Set<int>,
    msg: Seq<char>,
) -> Seq<(int, Seq<Seq<char>>)> {
    q.map_values(
        |e: (int, Seq<Seq<char>>)|
            if targets.contains(e.0) {
                (e.0, e.1.push(msg))
            } else {
                e
            },
    )
}

/// Fanning out to the targets one at a time lands on the same table as
/// fanning out to them at once.
proof fn lemma_fanout_step(q0: Seq<(int, Seq<Seq<char>>)>, s: Set<int>, id: int, msg: Seq<char>)
    requires
        assoc_keys_unique(q0),
        !s.contains(id),
    ensures
        spec_enqueue(spec_fanout(q0, s, msg), id, msg) == spec_fanout(q0, s.insert(id), msg),
{
    let q1 = spec_fanout(q0, s, msg);
    let q2 = spec_fanout(q0, s.insert(id), msg);
    assert(forall|m: int| 0 <= m < q1.len() ==> (#[trigger] q1[m]).0 == q0[m].0);
    if assoc_contains(q1, id) {
        let w = choose|m: int| 0 <= m < q1.len() && (#[trigger] q1[m]).0 == id;
        let first = first_index_with_key(q1, id, w);
        lemma_assoc_get_at_first(q1, id, first);
        assert(q1[first] == q0[first]);
        lemma_assoc_update_found(q1, id, q0[first].1.push(msg), first);
        assert forall|m: int| 0 <= m < q2.len() implies #[trigger] q2[m] == q1.update(
            first,
            (id, q0[first].1.push(msg)),
        )[m] by {
            if m != first {
                assert(q0[m].0 != id) by {
                    if q0[m].0 == id {
                        assert(q1[m].0 == id && q1[first].0 == id);
                    }
                }
            }
        }
        assert(spec_enqueue(q1, id, msg) =~= q2);
    } else {
        lemma_contains_iff_get_some(q1, id);
        assert forall|m: int| 0 <= m < q2.len() implies #[trigger] q2[m] == q1[m] by {
            assert(q0[m].0 != id) by {
                if q0[m].0 == id {
                    assert(q1[m].0 == id);
                }
            }
        }
        assert(spec_enqueue(q1, id, msg) =~= q2);
    }
}

/// Law: a connection subscribed to one subject receives exactly the
/// fan-outs it should — its queue gains a message for that subject or the
/// wildcard, and is untouched by a fan-out for any other subject.
pub proof fn lemma_fanout_isolation(
    q: Seq<(int, Seq<Seq<char>>)>,
    r: Seq<(Seq<char>, Set<int>)>,
    subscribed: Seq<char>,
    name: Seq<char>,
    msg: Seq<char>,
    i: int,
    id: int,
)
    requires
        exclusive(r),
        0 <= i < q.len(),
        q[i].0 == id,
        set_under(r, subscribed).contains(id),
    ensures
        ({
            let q2 = spec_fanout(q, spec_targets(r, name), msg);
            &&& (subscribed == name || subscribed == "*"@) ==> q2[i].1 == q[i].1.push(msg)
            &&& (subscribed != name && subscribed != "*"@) ==> q2[i] == q[i]
        }),
{
    let targets = spec_targets(r, name);
    if subscribed == name || subscribed == "*"@ {
        assert(targets.contains(id));
    } else {
        let j0 = index_of_key(r, subscribed);
        assert(!set_under(r, name).contains(id)) by {
            if set_under(r, name).contains(id) {
                lemma_contains_iff_get_some(r, name);
                let j1 = index_of_key(r, name);
                assert(j0 != j1);
                assert(r[j0].1.contains(id) && r[j1].1.contains(id));
            }
        }
        assert(!set_under(r, "*"@).contains(id)) by {
            if set_under(r, "*"@).contains(id) {
                lemma_contains_iff_get_some(r, "*"@);
                let j1 = index_of_key(r, "*"@);
                assert(j0 != j1);
                assert(r[j0].1.contains(id) && r[j1].1.contains(id));
            }
        }
        assert(!targets.contains(id));
    }
}

/// Law: once a connection subscribes to a subject, a fan-out for that
/// subject (or a wildcard subscription's any-subject fan-out) lands on its
/// queue, and a fan-out for any other subject leaves its queue untouched.
/// With the subscription switched from one subject to another, this says
/// the old subject's updates stop and the new subject's start.
pub proof fn lemma_subscriber_receives_exactly_its_subject(
    r: Seq<(Seq<char>, Set<int>)>,
    q: Seq<(int, Seq<Seq<char>>)>,
    id: int,
    subject: Seq<char>,
    name: Seq<char>,
    msg: Seq<char>,
    i: int,
)
    requires
        0 <= i < q.len(),
        q[i].0 == id,
    ensures
        ({
            let r2 = crate::subscriptions::spec_subscribe(r, id, subject);
            let q2 = spec_fanout(q, spec_targets(r2, name), msg);
            &&& (name == subject || subject == "*"@) ==> q2[i].1 == q[i].1.push(msg)
            &&& (name != subject && subject != "*"@) ==> q2[i] == q[i]
        }),
{
    let r2 = crate::subscriptions::spec_subscribe(r, id, subject);
    crate::subscriptions::lemma_subscribe_exclusive_membership(r, id, subject);
    let targets = spec_targets(r2, name);
    if name == subject || subject == "*"@ {
        assert(targets.contains(id));
    } else {
        assert(!set_under(r2, name).contains(id)) by {
            if set_under(r2, name).contains(id) {
                lemma_contains_iff_get_some(r2, name);
                let j = index_of_key(r2, name);
                assert(r2[j].0 != subject);
            }
        }
        assert(!set_under(r2, "*"@).contains(id)) by {
            if set_under(r2, "*"@).contains(id) {
                lemma_contains_iff_get_some(r2, "*"@);
                let j = index_of_key(r2, "*"@);
                assert(r2[j].0 != subject);
            }
        }
        assert(!targets.contains(id));
    }
}

/// Law: the wildcard backfill replaces the connection's pending queue
/// with the snapshot in one step, and that queue then holds exactly one
/// entry per latest value plus one per history entry of that instant.
pub proof fn lemma_backfill_is_the_whole_snapshot(
    q: Seq<(int, Seq<Seq<char>>)>,
    id: int,
    v: crate::stock_information_cache::CacheView,
)
    ensures
        ({
            let q2 = assoc_update(q, id, snapshot_of(v));
            crate::assoc::assoc_get(q2, id) == Some(snapshot_of(v))
        }),
        snapshot_of(v).len() == v.latest.len()
            + crate::stock_information_cache::total_history_len(v.history),
{
    crate::assoc::lemma_get_after_update_same(q, id, snapshot_of(v));
    crate::stock_information_cache::lemma_snapshot_len(v);
}

/// The shared state the two listeners work on: the cache, the
/// subscription registry, the queue table, and the next fresh connection
/// identifier.
pub struct Broker {
    pub stock_information_cache: StockInformationCache,
    pub subscriber_map: SubscriptionRegistry,
    pub connection_queue: OutboundQueueTable,
    pub next_id: usize,
}

impl Broker {
    pub open spec fn wf(&self) -> bool {
        &&& self.stock_information_cache.wf()
        &&& self.subscriber_map.wf()
        &&& self.connection_queue.wf()
    }

    /// Assigns a fresh connection identifier and gives it an empty queue.
    pub fn accept_connection(&mut self) -> (id: usize)
        requires
            old(self).wf(),
            old(self).next_id < usize::MAX,
        ensures
            final (self).wf(),
            id == old(self).next_id,
            final (self).next_id == old(self).next_id + 1,
            final (self).connection_queue@ == assoc_update(
                old(self).connection_queue@,
                id as int,
                Seq::<Seq<char>>::empty(),
            ),
            final (self).stock_information_cache@ == old(self).stock_information_cache@,
            final (self).subscriber_map@ == old(self).subscriber_map@,
    {
        let id = self.next_id;
        self.next_id = self.next_id + 1;
        self.connection_queue.create(id);
        id
    }

    /// The ingestion loop's work for one decoded publisher message: admit
    /// it into the cache, then append it to the queue of every connection
    /// subscribed to its subject or to the wildcard.
    pub fn handle_update_message(&mut self, message: &String) -> (name: String)
        requires
            old(self).wf(),
        ensures
            final (self).wf(),
            name@ == info_of(message@).stock_name,
            final (self).stock_information_cache@ == spec_admit(
                old(self).stock_information_cache@,
                message@,
            ),
            final (self).subscriber_map@ == old(self).subscriber_map@,
            final (self).next_id == old(self).next_id,
            final (self).connection_queue@ == spec_fanout(
                old(self).connection_queue@,
                spec_targets(old(self).subscriber_map@, info_of(message@).stock_name),
                message@,
            ),
    {
        let name = self.stock_information_cache.add_json(message.as_str());
        let targets = self.subscriber_map.targets_for(&name);
        let ghost tset = spec_targets(self.subscriber_map@, name@);
        let ghost q0 = self.connection_queue@;
        let ghost cache_now = self.stock_information_cache@;
        let ghost registry_now = self.subscriber_map@;
        let ghost next_id_now = self.next_id;
        proof {
            self.connection_queue.lemma_wf_unique();
        }
        let mut i: usize = 0;
        while i < targets.len()
            invariant
                i <= targets@.len(),
                ids_unique(targets@),
                forall|x: int| #[trigger] seq_has(targets@, x) <==> tset.contains(x),
                assoc_keys_unique(q0),
                self.connection_queue.wf(),
                self.connection_queue@ == spec_fanout(
                    q0,
                    ids_set(targets@.subrange(0, i as int)),
                    message@,
                ),
                self.stock_information_cache.wf(),
                self.stock_information_cache@ == cache_now,
                self.subscriber_map.wf(),
                self.subscriber_map@ == registry_now,
                self.next_id == next_id_now,
            decreases targets@.len() - i,
        {
            let ghost prefix = targets@.subrange(0, i as int);
            let ghost prefix_set = ids_set(prefix);
            proof {
                assert(targets@.subrange(0, (i + 1) as int) =~= prefix.push(targets@[i as int]));
                assert(!prefix_set.contains(targets@[i as int] as int)) by {
                    if seq_has(prefix, targets@[i as int] as int) {
                        let j = choose|j: int|
                            0 <= j < prefix.len() && (#[trigger] prefix[j]) as int == targets@[
                                i as int
                            ] as int;
                        assert(targets@[j] == targets@[i as int]);
                    }
                }
                lemma_fanout_step(q0, prefix_set, targets@[i as int] as int, message@);
                assert(ids_set(targets@.subrange(0, (i + 1) as int)) =~= prefix_set.insert(
                    targets@[i as int] as int,
                )) by {
                    assert forall|x: int|
                        seq_has(prefix.push(targets@[i as int]), x) <==> (seq_has(prefix, x)
                            || targets@[i as int] as int == x) by {
                        lemma_seq_has_push(prefix, targets@[i as int], x);
                    }
                }
            }
            self.connection_queue.enqueue(targets[i], message);
            i = i + 1;
        }
        proof {
            assert(targets@.subrange(0, targets@.len() as int) =~= targets@);
            assert(ids_set(targets@) =~= tset);
        }
        name
    }

    /// The egress receive loop's work for one subscription request: a
    /// valid subject (known, or the wildcard) moves the connection's
    /// subscription there, and the wildcard also replaces the pending
    /// queue with a full cache snapshot; anything else changes nothing.
    pub fn handle_subscription_request(&mut self, id: usize, request: &String) -> (r: Option<
        String,
    >)
        requires
            old(self).wf(),
        ensures
            final (self).wf(),
            final (self).next_id == old(self).next_id,
            final (self).stock_information_cache@ == old(self).stock_information_cache@,
            ({
                let fv = field_value(decoded_pairs(request@), "stock"@);
                match fv {
                    Option::None => final (self).subscriber_map@ == old(self).subscriber_map@
                        && final (self).connection_queue@ == old(self).connection_queue@ && r
                        is None,
                    Option::Some(name) => if name == "*"@ {
                        &&& final (self).subscriber_map@ == spec_subscribe(
                            old(self).subscriber_map@,
                            id as int,
                            name,
                        )
                        &&& final (self).connection_queue@ == assoc_update(
                            old(self).connection_queue@,
                            id as int,
                            snapshot_of(old(self).stock_information_cache@),
                        )
                        &&& r matches Some(s) && s@ == name
                    } else if assoc_contains(old(self).stock_information_cache@.latest, name) {
                        &&& final (self).subscriber_map@ == spec_subscribe(
                            old(self).subscriber_map@,
                            id as int,
                            name,
                        )
                        &&& final (self).connection_queue@ == old(self).connection_queue@
                        &&& r matches Some(s) && s@ == name
                    } else {
                        &&& final (self).subscriber_map@ == old(self).subscriber_map@
                        &&& final (self).connection_queue@ == old(self).connection_queue@
                        &&& r is None
                    },
                }
            }),
    {
        let pairs = parse_json(request.as_str());
        let stock_key = String::from_str("stock");
        let requested = match get_field(&pairs, &stock_key) {
            Some(v) => v.clone(),
            None => {
                return None;
            },
        };
        let wildcard = String::from_str("*");
        if requested == wildcard {
            self.subscriber_map.subscribe(id, &requested);
            let snapshot = self.stock_information_cache.get_entire_cache();
            self.connection_queue.replace(id, snapshot);
            Some(requested)
        } else if self.stock_information_cache.has_key(&requested) {
            self.subscriber_map.subscribe(id, &requested);
            Some(requested)
        } else {
            None
        }
    }

    /// The egress receive loop's cleanup: on read failure or close, the
    /// connection leaves the set it last subscribed to.
    pub fn handle_receiver_close(&mut self, id: usize, current: &String)
        requires
            old(self).wf(),
        ensures
            final (self).wf(),
            final (self).subscriber_map@ == crate::subscriptions::spec_unsubscribe(
                old(self).subscriber_map@,
                id as int,
                current@,
            ),
            final (self).stock_information_cache@ == old(self).stock_information_cache@,
            final (self).connection_queue@ == old(self).connection_queue@,
            final (self).next_id == old(self).next_id,
    {
        self.subscriber_map.unsubscribe(id, current);
    }

    /// The egress send loop's cleanup: on send failure, the connection's
    /// queue entry goes away.
    pub fn handle_sender_close(&mut self, id: usize)
        requires
            old(self).wf(),
        ensures
            final (self).wf(),
            final (self).connection_queue@ == crate::assoc::assoc_remove(
                old(self).connection_queue@,
                id as int,
            ),
            final (self).stock_information_cache@ == old(self).stock_information_cache@,
            final (self).subscriber_map@ == old(self).subscriber_map@,
            final (self).next_id == old(self).next_id,
    {
        self.connection_queue.remove(id);
    }
}

} // verus!
