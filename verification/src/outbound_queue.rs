//! One pending-message queue per live connection.
//!
//! Entries are created when a connection is accepted and removed at
//! teardown.  Producers append; the owning send loop atomically drains.
//! An enqueue for a connection already torn down is silently ignored — the
//! race between teardown and a concurrent producer is expected and
//! harmless.

use crate::assoc::{
    assoc_contains, assoc_get, assoc_keys_unique, assoc_remove, assoc_update,
    lemma_assoc_get_at_first, lemma_assoc_remove_found, lemma_assoc_update_absent,
    lemma_assoc_update_found, lemma_contains_iff_get_some, lemma_update_preserves_unique,
};
use vstd::prelude::*;

verus! {

/// The model of the queue table: connection identifier to pending
/// messages, in table order.
pub open spec fn queues_view(entries: Seq<(usize, Vec<String>)>) -> Seq<(int, Seq<Seq<char>>)> {
    Seq::new(entries.len(), |i: int| (entries[i].0 as int, entries[i].1.deep_view()))
}

/// What enqueueing does: append when the queue exists, nothing otherwise.
pub open spec fn spec_enqueue(q: Seq<(int, Seq<Seq<char>>)>, id: int, msg: Seq<char>) -> Seq<
    (int, Seq<Seq<char>>),
> {
    match assoc_get(q, id) {
        Some(buf) => assoc_update(q, id, buf.push(msg)),
        None => q,
    }
}

pub struct OutboundQueueTable {
    queues: Vec<(usize, Vec<String>)>,
}

impl View for OutboundQueueTable {
    type V = Seq<(int, Seq<Seq<char>>)>;

    closed spec fn view(&self) -> Seq<(int, Seq<Seq<char>>)> {
        queues_view(self.queues@)
    }
}

/// Index of the first queue under `id`, if any.
fn find_queue(entries: &Vec<(usize, Vec<String>)>, id: usize) -> (r: Option<usize>)
    ensures
        match r {
            Some(i) => i < entries.len() && queues_view(entries@)[i as int].0 == id as int
                && forall|j: int|
                0 <= j < i ==> (#[trigger] queues_view(entries@)[j]).0 != id as int,
            None => !assoc_contains(queues_view(entries@), id as int),
        },
{
    let mut i: usize = 0;
    while i < entries.len()
        invariant
            i <= entries.len(),
            forall|j: int| 0 <= j < i ==> (#[trigger] queues_view(entries@)[j]).0 != id as int,
        decreases entries.len() - i,
    {
        if entries[i].0 == id {
            return Some(i);
        }
        assert(queues_view(entries@)[i as int].0 != id as int);
        i = i + 1;
    }
    None
}

impl OutboundQueueTable {
    /// Distinct connection identifiers.
    pub closed spec fn wf(&self) -> bool {
        assoc_keys_unique(self@)
    }

    /// A well-formed table keeps its connection identifiers distinct.
    pub proof fn lemma_wf_unique(&self)
        requires
            self.wf(),
        ensures
            assoc_keys_unique(self@),
    {
    }

    pub fn new() -> (r: Self)
        ensures
            r.wf(),
            r@ == Seq::<(int, Seq<Seq<char>>)>::empty(),
    {
        let r = OutboundQueueTable { queues: Vec::new() };
        proof {
            assert(r@ =~= Seq::<(int, Seq<Seq<char>>)>::empty());
        }
        r
    }

    /// Gives the connection an empty queue (overwriting any old one).
    pub fn create(&mut self, id: usize)
        requires
            old(self).wf(),
        ensures
            final (self).wf(),
            final (self)@ == assoc_update(old(self)@, id as int, Seq::<Seq<char>>::empty()),
    {
        let empty_messages: Vec<String> = Vec::new();
        proof {
            assert(empty_messages.deep_view() =~= Seq::<Seq<char>>::empty());
        }
        self.replace(id, empty_messages);
    }

    /// Tears the connection's queue down; no-op when already gone.
    pub fn remove(&mut self, id: usize)
        requires
            old(self).wf(),
        ensures
            final (self).wf(),
            final (self)@ == assoc_remove(old(self)@, id as int),
    {
        let ghost old_view = self@;
        match find_queue(&self.queues, id) {
            Some(idx) => {
                proof {
                    lemma_assoc_remove_found(old_view, id as int, idx as int);
                }
                let _removed = self.queues.remove(idx);
                proof {
                    assert(self@ =~= old_view.remove(idx as int));
                    assert(assoc_keys_unique(self@)) by {
                        assert(forall|m: int|
                            0 <= m < self@.len() ==> #[trigger] self@[m] == if m < idx as int {
                                old_view[m]
                            } else {
                                old_view[m + 1]
                            });
                    }
                }
            },
            None => {
                proof {
                    crate::assoc::lemma_assoc_remove_absent(old_view, id as int);
                }
            },
        }
    }

    /// Appends `message` to the connection's queue, exactly as
    /// `spec_enqueue` says: ignored when the queue is gone.
    pub fn enqueue(&mut self, id: usize, message: &String)
        requires
            old(self).wf(),
        ensures
            final (self).wf(),
            final (self)@ == spec_enqueue(old(self)@, id as int, message@),
    {
        let ghost old_view = self@;
        match find_queue(&self.queues, id) {
            Some(idx) => {
                proof {
                    lemma_assoc_get_at_first(old_view, id as int, idx as int);
                    lemma_assoc_update_found(
                        old_view,
                        id as int,
                        old_view[idx as int].1.push(message@),
                        idx as int,
                    );
                    lemma_update_preserves_unique(
                        old_view,
                        id as int,
                        old_view[idx as int].1.push(message@),
                    );
                }
                let entry = self.queues.remove(idx);
                let entry_id = entry.0;
                let mut buf = entry.1;
                buf.push(message.clone());
                self.queues.insert(idx, (entry_id, buf));
                proof {
                    assert(buf.deep_view() =~= old_view[idx as int].1.push(message@));
                    assert(self@ =~= old_view.update(
                        idx as int,
                        (id as int, old_view[idx as int].1.push(message@)),
                    ));
                }
            },
            None => {
                proof {
                    lemma_contains_iff_get_some(old_view, id as int);
                }
            },
        }
    }

    /// Overwrites the connection's pending queue with `messages` — the
    /// wildcard-subscribe backfill.
    pub fn replace(&mut self, id: usize, messages: Vec<String>)
        requires
            old(self).wf(),
        ensures
            final (self).wf(),
            final (self)@ == assoc_update(old(self)@, id as int, messages.deep_view()),
    {
        let ghost old_view = self@;
        proof {
            lemma_update_preserves_unique(old_view, id as int, messages.deep_view());
        }
        match find_queue(&self.queues, id) {
            Some(idx) => {
                proof {
                    lemma_assoc_update_found(old_view, id as int, messages.deep_view(), idx as int);
                }
                let _replaced = self.queues.remove(idx);
                self.queues.insert(idx, (id, messages));
                proof {
                    assert(self@ =~= old_view.update(idx as int, (id as int, messages.deep_view())));
                }
            },
            None => {
                proof {
                    lemma_assoc_update_absent(old_view, id as int, messages.deep_view());
                }
                self.queues.push((id, messages));
                proof {
                    assert(self@ =~= old_view.push((id as int, messages.deep_view())));
                }
            },
        }
    }

    /// Atomically takes the queue's contents, leaving it empty; `None`
    /// when the connection is gone, which tells the send loop to stop.
    pub fn drain_and_clear(&mut self, id: usize) -> (r: Option<Vec<String>>)
        requires
            old(self).wf(),
        ensures
            final (self).wf(),
            match assoc_get(old(self)@, id as int) {
                Some(buf) => r matches Some(v) && v.deep_view() == buf && final (self)@
                    == assoc_update(old(self)@, id as int, Seq::<Seq<char>>::empty()),
                None => r is None && final (self)@ == old(self)@,
            },
    {
        let ghost old_view = self@;
        match find_queue(&self.queues, id) {
            Some(idx) => {
                proof {
                    lemma_assoc_get_at_first(old_view, id as int, idx as int);
                    lemma_assoc_update_found(
                        old_view,
                        id as int,
                        Seq::<Seq<char>>::empty(),
                        idx as int,
                    );
                    lemma_update_preserves_unique(old_view, id as int, Seq::<Seq<char>>::empty());
                }
                let entry = self.queues.remove(idx);
                let entry_id = entry.0;
                let drained = entry.1;
                let fresh: Vec<String> = Vec::new();
                proof {
                    assert(fresh.deep_view() =~= Seq::<Seq<char>>::empty());
                }
                self.queues.insert(idx, (entry_id, fresh));
                proof {
                    assert(self@ =~= old_view.update(
                        idx as int,
                        (id as int, Seq::<Seq<char>>::empty()),
                    ));
                }
                Some(drained)
            },
            None => {
                proof {
                    lemma_contains_iff_get_some(old_view, id as int);
                }
                None
            },
        }
    }
}

} // verus!
