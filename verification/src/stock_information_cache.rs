//! The latest-value cache and the bounded per-subject history.
//!
//! `add_json` admits one encoded message: the latest-value entry for the
//! subject is replaced only when the message carries nonzero volume at the
//! finest interval, or when the subject is new — a deliberately throttled
//! snapshot — while the history tape for (subject, interval) always gets
//! the message appended, evicting its oldest entry at capacity 120.
//!
//! Both tables are association vectors with distinct keys, so the order
//! that the directory listing and the snapshot expose is part of the model.

use crate::assoc::{
    assoc_contains, assoc_get, assoc_keys_unique, assoc_update, lemma_assoc_get_at_first,
    lemma_assoc_update_absent, lemma_assoc_update_found, lemma_contains_iff_get_some,
    lemma_get_after_update_same, lemma_update_preserves_unique,
};
use crate::stock_information::{info_of, parse_json_to_stock_info};
use vstd::prelude::*;

verus! {

/// Capacity of each history buffer.
pub const HISTORY_CAPACITY: usize = 120;

/// The mathematical model of the cache: the latest-value entries and the
/// history tapes, each in insertion order.
pub ghost struct CacheView {
    pub latest: Seq<(Seq<char>, Seq<char>)>,
    pub history: Seq<((Seq<char>, int), Seq<Seq<char>>)>,
}

/// The model of a history vector entry by entry.
pub open spec fn history_view(entries: Seq<((String, usize), Vec<String>)>) -> Seq<
    ((Seq<char>, int), Seq<Seq<char>>),
> {
    Seq::new(
        entries.len(),
        |i: int| ((entries[i].0.0@, entries[i].0.1 as int), entries[i].1.deep_view()),
    )
}

/// Appending to a bounded tape: evict the oldest entry first at capacity.
pub open spec fn push_evict(buf: Seq<Seq<char>>, msg: Seq<char>) -> Seq<Seq<char>> {
    if buf.len() >= HISTORY_CAPACITY {
        buf.drop_first().push(msg)
    } else {
        buf.push(msg)
    }
}

/// What admitting one encoded message does to the cache.
pub open spec fn spec_admit(v: CacheView, msg: Seq<char>) -> CacheView {
    let info = info_of(msg);
    let latest = if (info.volume_moved != 0 && info.stock_interval == 1) || !assoc_contains(
        v.latest,
        info.stock_name,
    ) {
        assoc_update(v.latest, info.stock_name, msg)
    } else {
        v.latest
    };
    let key = (info.stock_name, info.stock_interval);
    let buf = match assoc_get(v.history, key) {
        Some(b) => b,
        None => Seq::<Seq<char>>::empty(),
    };
    CacheView { latest, history: assoc_update(v.history, key, push_evict(buf, msg)) }
}

/// The cache with nothing admitted yet.
pub open spec fn empty_cache() -> CacheView {
    CacheView {
        latest: Seq::<(Seq<char>, Seq<char>)>::empty(),
        history: Seq::<((Seq<char>, int), Seq<Seq<char>>)>::empty(),
    }
}

/// The cache after admitting a whole run of messages, in order.
pub open spec fn admit_all(v: CacheView, msgs: Seq<Seq<char>>) -> CacheView
    decreases msgs.len(),
{
    if msgs.len() == 0 {
        v
    } else {
        spec_admit(admit_all(v, msgs.drop_last()), msgs.last())
    }
}

/// A well-formed cache: distinct keys in both tables, every tape within
/// capacity.
pub open spec fn cache_wf(v: CacheView) -> bool {
    &&& assoc_keys_unique(v.latest)
    &&& assoc_keys_unique(v.history)
    &&& forall|i: int|
        0 <= i < v.history.len() ==> (#[trigger] v.history[i]).1.len() <= HISTORY_CAPACITY
}

/// The names under the primary interval (0), each followed by `|`, in
/// table order.
pub open spec fn names_join(h: Seq<((Seq<char>, int), Seq<Seq<char>>)>) -> Seq<char>
    decreases h.len(),
{
    if h.len() == 0 {
        Seq::empty()
    } else {
        names_join(h.drop_last()) + (if h.last().0.1 == 0 {
            h.last().0.0 + "|"@
        } else {
            Seq::<char>::empty()
        })
    }
}

/// All history entries across all tapes, in table order.
pub open spec fn histories_concat(h: Seq<((Seq<char>, int), Seq<Seq<char>>)>) -> Seq<Seq<char>>
    decreases h.len(),
{
    if h.len() == 0 {
        Seq::empty()
    } else {
        histories_concat(h.drop_last()) + h.last().1
    }
}

/// The backfill snapshot: every latest value, then every history entry.
pub open spec fn snapshot_of(v: CacheView) -> Seq<Seq<char>> {
    v.latest.map_values(|p: (Seq<char>, Seq<char>)| p.1) + histories_concat(v.history)
}

/// Total number of history entries across all tapes.
pub open spec fn total_history_len(h: Seq<((Seq<char>, int), Seq<Seq<char>>)>) -> int
    decreases h.len(),
{
    if h.len() == 0 {
        0
    } else {
        total_history_len(h.drop_last()) + h.last().1.len()
    }
}

pub proof fn lemma_histories_concat_len(h: Seq<((Seq<char>, int), Seq<Seq<char>>)>)
    ensures
        histories_concat(h).len() == total_history_len(h),
    decreases h.len(),
{
    if h.len() > 0 {
        lemma_histories_concat_len(h.drop_last());
    }
}

/// Law: the snapshot holds exactly one entry per latest value plus one per
/// history entry.
pub proof fn lemma_snapshot_len(v: CacheView)
    ensures
        snapshot_of(v).len() == v.latest.len() + total_history_len(v.history),
{
    lemma_histories_concat_len(v.history);
}

pub struct StockInformationCache {
    stock_info_map: Vec<(String, String)>,
    stock_history_map: Vec<((String, usize), Vec<String>)>,
}

impl View for StockInformationCache {
    type V = CacheView;

    closed spec fn view(&self) -> CacheView {
        CacheView {
            latest: self.stock_info_map.deep_view(),
            history: history_view(self.stock_history_map@),
        }
    }
}

/// Index of the first latest-value entry under `key`, if any.
fn find_in_latest(entries: &Vec<(String, String)>, key: &String) -> (r: Option<usize>)
    ensures
        match r {
            Some(i) => i < entries.len() && entries.deep_view()[i as int].0 == key@ && forall|
                j: int,
            | 0 <= j < i ==> (#[trigger] entries.deep_view()[j]).0 != key@,
            None => !assoc_contains(entries.deep_view(), key@),
        },
{
    let mut i: usize = 0;
    while i < entries.len()
        invariant
            i <= entries.len(),
            forall|j: int| 0 <= j < i ==> (#[trigger] entries.deep_view()[j]).0 != key@,
        decreases entries.len() - i,
    {
        if entries[i].0 == *key {
            return Some(i);
        }
        i = i + 1;
    }
    None
}

/// Binds `key` to `value` in the latest-value table, as `assoc_update`
/// says.
fn update_latest(entries: &mut Vec<(String, String)>, key: String, value: String)
    ensures
        final (entries).deep_view() == assoc_update(old(entries).deep_view(), key@, value@),
{
    let found = find_in_latest(entries, &key);
    match found {
        Some(i) => {
            proof {
                lemma_assoc_update_found(entries.deep_view(), key@, value@, i as int);
            }
            let _replaced = entries.remove(i);
            entries.insert(i, (key, value));
            proof {
                assert(entries.deep_view() =~= old(entries).deep_view().update(
                    i as int,
                    (key@, value@),
                ));
            }
        },
        None => {
            proof {
                lemma_assoc_update_absent(entries.deep_view(), key@, value@);
            }
            entries.push((key, value));
            proof {
                assert(entries.deep_view() =~= old(entries).deep_view().push((key@, value@)));
            }
        },
    }
}

/// Index of the first history entry under (`name`, `interval`), if any.
fn find_in_history(entries: &Vec<((String, usize), Vec<String>)>, name: &String, interval: usize)
    -> (r: Option<usize>)
    ensures
        match r {
            Some(i) => i < entries.len() && history_view(entries@)[i as int].0 == (
                name@,
                interval as int,
            ) && forall|j: int|
                0 <= j < i ==> (#[trigger] history_view(entries@)[j]).0 != (
                    name@,
                    interval as int,
                ),
            None => !assoc_contains(history_view(entries@), (name@, interval as int)),
        },
{
    let mut i: usize = 0;
    while i < entries.len()
        invariant
            i <= entries.len(),
            forall|j: int|
                0 <= j < i ==> (#[trigger] history_view(entries@)[j]).0 != (
                    name@,
                    interval as int,
                ),
        decreases entries.len() - i,
    {
        if entries[i].0.0 == *name && entries[i].0.1 == interval {
            return Some(i);
        }
        assert(history_view(entries@)[i as int].0 != (name@, interval as int));
        i = i + 1;
    }
    None
}

impl StockInformationCache {
    pub open spec fn wf(&self) -> bool {
        cache_wf(self@)
    }

    pub fn new() -> (r: Self)
        ensures
            r.wf(),
            r@.latest == Seq::<(Seq<char>, Seq<char>)>::empty(),
            r@.history == Seq::<((Seq<char>, int), Seq<Seq<char>>)>::empty(),
    {
        let r = StockInformationCache { stock_info_map: Vec::new(), stock_history_map: Vec::new() };
        proof {
            assert(r@.latest =~= Seq::<(Seq<char>, Seq<char>)>::empty());
            assert(r@.history =~= Seq::<((Seq<char>, int), Seq<Seq<char>>)>::empty());
        }
        r
    }

    /// True iff a latest-value entry exists for `key`.
    pub fn has_key(&self, key: &String) -> (r: bool)
        ensures
            r == assoc_contains(self@.latest, key@),
    {
        match find_in_latest(&self.stock_info_map, key) {
            Some(i) => {
                assert(assoc_contains(self@.latest, key@)) by {
                    assert(self@.latest[i as int].0 == key@);
                }
                true
            },
            None => false,
        }
    }

    /// Admits one encoded message, exactly as `spec_admit` says, and
    /// returns the subject name it was routed under.
    pub fn add_json(&mut self, json_data: &str) -> (name: String)
        requires
            old(self).wf(),
        ensures
            final (self).wf(),
            final (self)@ == spec_admit(old(self)@, json_data@),
            name@ == info_of(json_data@).stock_name,
    {
        let stock_info = parse_json_to_stock_info(json_data);
        let encoded = String::from_str(json_data);
        let qualifies = stock_info.volume_moved != 0 && stock_info.stock_interval == 1;
        let present = self.has_key(&stock_info.stock_name);
        if qualifies || !present {
            update_latest(&mut self.stock_info_map, stock_info.stock_name.clone(), encoded.clone());
            proof {
                lemma_update_preserves_unique(
                    old(self)@.latest,
                    stock_info.stock_name@,
                    json_data@,
                );
            }
        }
        let interval = stock_info.stock_interval;
        let ghost hkey = (stock_info.stock_name@, interval as int);
        let ghost old_history = history_view(self.stock_history_map@);
        match find_in_history(&self.stock_history_map, &stock_info.stock_name, interval) {
            Some(i) => {
                proof {
                    lemma_assoc_get_at_first(old_history, hkey, i as int);
                }
                let entry = self.stock_history_map.remove(i);
                let entry_key = entry.0;
                let mut buf = entry.1;
                if buf.len() >= HISTORY_CAPACITY {
                    let _evicted = buf.remove(0);
                }
                buf.push(encoded);
                self.stock_history_map.insert(i, (entry_key, buf));
                proof {
                    lemma_assoc_update_found(
                        old_history,
                        hkey,
                        push_evict(old_history[i as int].1, json_data@),
                        i as int,
                    );
                    assert(buf.deep_view() =~= push_evict(old_history[i as int].1, json_data@));
                    assert(history_view(self.stock_history_map@) =~= old_history.update(
                        i as int,
                        (hkey, push_evict(old_history[i as int].1, json_data@)),
                    ));
                    lemma_update_preserves_unique(
                        old_history,
                        hkey,
                        push_evict(old_history[i as int].1, json_data@),
                    );
                }
            },
            None => {
                proof {
                    lemma_contains_iff_get_some(old_history, hkey);
                    lemma_assoc_update_absent(
                        old_history,
                        hkey,
                        push_evict(Seq::empty(), json_data@),
                    );
                }
                let mut buf: Vec<String> = Vec::new();
                buf.push(encoded);
                self.stock_history_map.push(((stock_info.stock_name.clone(), interval), buf));
                proof {
                    assert(buf.deep_view() =~= push_evict(Seq::empty(), json_data@));
                    assert(history_view(self.stock_history_map@) =~= old_history.push(
                        (hkey, push_evict(Seq::empty(), json_data@)),
                    ));
                    lemma_update_preserves_unique(
                        old_history,
                        hkey,
                        push_evict(Seq::empty(), json_data@),
                    );
                }
            },
        }
        stock_info.stock_name
    }

    /// The subject names present under the primary interval, each followed
    /// by `|`, in table order.
    pub fn get_stock_names(&self) -> (r: String)
        ensures
            r@ == names_join(self@.history),
    {
        let mut acc = String::new();
        let mut i: usize = 0;
        while i < self.stock_history_map.len()
            invariant
                i <= self.stock_history_map.len(),
                acc@ == names_join(history_view(self.stock_history_map@).subrange(0, i as int)),
            decreases self.stock_history_map.len() - i,
        {
            let ghost h = history_view(self.stock_history_map@);
            proof {
                assert(h.subrange(0, (i + 1) as int).drop_last() =~= h.subrange(0, i as int));
                assert(h.subrange(0, (i + 1) as int).last() == h[i as int]);
            }
            if self.stock_history_map[i].0.1 == 0 {
                acc.append(self.stock_history_map[i].0.0.as_str());
                acc.append("|");
                proof {
                    assert(acc@ =~= names_join(h.subrange(0, i as int)) + (h[i as int].0.0 + "|"@));
                }
            } else {
                proof {
                    assert(names_join(h.subrange(0, (i + 1) as int)) =~= names_join(
                        h.subrange(0, i as int),
                    ));
                }
            }
            i = i + 1;
        }
        proof {
            assert(history_view(self.stock_history_map@).subrange(
                0,
                self.stock_history_map@.len() as int,
            ) =~= history_view(self.stock_history_map@));
        }
        acc
    }

    /// The backfill snapshot: every latest value, then every history
    /// entry, as `snapshot_of` says.
    pub fn get_entire_cache(&self) -> (r: Vec<String>)
        ensures
            r.deep_view() == snapshot_of(self@),
    {
        let ghost latest_part = self@.latest.map_values(|p: (Seq<char>, Seq<char>)| p.1);
        let mut cache_dump: Vec<String> = Vec::new();
        let mut i: usize = 0;
        while i < self.stock_info_map.len()
            invariant
                i <= self.stock_info_map.len(),
                latest_part == self.stock_info_map.deep_view().map_values(
                    |p: (Seq<char>, Seq<char>)| p.1,
                ),
                cache_dump.deep_view() == latest_part.subrange(0, i as int),
            decreases self.stock_info_map.len() - i,
        {
            let ghost prev = cache_dump.deep_view();
            cache_dump.push(self.stock_info_map[i].1.clone());
            proof {
                assert(cache_dump.deep_view() =~= prev.push(self.stock_info_map@[i as int].1@));
                assert(latest_part[i as int] == self.stock_info_map@[i as int].1@);
                assert(cache_dump.deep_view() =~= latest_part.subrange(0, (i + 1) as int));
            }
            i = i + 1;
        }
        proof {
            assert(latest_part.subrange(0, self.stock_info_map@.len() as int) =~= latest_part);
        }
        let ghost h = history_view(self.stock_history_map@);
        let mut k: usize = 0;
        while k < self.stock_history_map.len()
            invariant
                k <= self.stock_history_map.len(),
                latest_part == self@.latest.map_values(|p: (Seq<char>, Seq<char>)| p.1),
                h == history_view(self.stock_history_map@),
                cache_dump.deep_view() == latest_part + histories_concat(
                    h.subrange(0, k as int),
                ),
            decreases self.stock_history_map.len() - k,
        {
            proof {
                assert(h.subrange(0, (k + 1) as int).drop_last() =~= h.subrange(0, k as int));
                assert(h.subrange(0, (k + 1) as int).last() == h[k as int]);
            }
            let buf_len = self.stock_history_map[k].1.len();
            let mut j: usize = 0;
            while j < buf_len
                invariant
                    j <= buf_len,
                    k < self.stock_history_map.len(),
                    buf_len == self.stock_history_map@[k as int].1.len(),
                    latest_part == self@.latest.map_values(|p: (Seq<char>, Seq<char>)| p.1),
                    h == history_view(self.stock_history_map@),
                    cache_dump.deep_view() == latest_part + histories_concat(
                        h.subrange(0, k as int),
                    ) + h[k as int].1.subrange(0, j as int),
                decreases buf_len - j,
            {
                let ghost prev = cache_dump.deep_view();
                cache_dump.push(self.stock_history_map[k].1[j].clone());
                proof {
                    assert(cache_dump.deep_view() =~= prev.push(
                        self.stock_history_map@[k as int].1@[j as int]@,
                    ));
                    assert(h[k as int].1[j as int] == self.stock_history_map@[k as int].1@[
                        j as int
                    ]@);
                    assert(cache_dump.deep_view() =~= latest_part + histories_concat(
                        h.subrange(0, k as int),
                    ) + h[k as int].1.subrange(0, (j + 1) as int));
                }
                j = j + 1;
            }
            proof {
                assert(h[k as int].1.subrange(0, h[k as int].1.len() as int) =~= h[k as int].1);
                assert(latest_part + histories_concat(h.subrange(0, k as int)) + h[k as int].1
                    =~= latest_part + histories_concat(h.subrange(0, (k + 1) as int)));
            }
            k = k + 1;
        }
        proof {
            assert(h.subrange(0, self.stock_history_map@.len() as int) =~= h);
        }
        cache_dump
    }
}

/// Admitting never removes a latest-value entry, and always leaves one
/// for the admitted message's own subject.
pub proof fn lemma_admit_keeps_and_adds_latest(v: CacheView, msg: Seq<char>, k: Seq<char>)
    ensures
        assoc_contains(v.latest, k) ==> assoc_contains(spec_admit(v, msg).latest, k),
        k == info_of(msg).stock_name ==> assoc_contains(spec_admit(v, msg).latest, k),
{
    let info = info_of(msg);
    let latest2 = spec_admit(v, msg).latest;
    let replaced = (info.volume_moved != 0 && info.stock_interval == 1) || !assoc_contains(
        v.latest,
        info.stock_name,
    );
    if replaced {
        assert(latest2 == assoc_update(v.latest, info.stock_name, msg));
        if k == info.stock_name {
            lemma_get_after_update_same(v.latest, info.stock_name, msg);
            lemma_contains_iff_get_some(latest2, k);
        } else if assoc_contains(v.latest, k) {
            crate::assoc::lemma_get_after_update_other(v.latest, info.stock_name, msg, k);
            lemma_contains_iff_get_some(v.latest, k);
            lemma_contains_iff_get_some(latest2, k);
        }
    }
}

/// Law: over a run of admits that all carry nonzero volume at the finest
/// interval for one subject, the latest value tracks the most recently
/// admitted of them — also when they repeat.
pub proof fn lemma_latest_tracks_qualifying_admits(
    v: CacheView,
    msgs: Seq<Seq<char>>,
    sn: Seq<char>,
)
    requires
        msgs.len() > 0,
        forall|k: int|
            0 <= k < msgs.len() ==> {
                let info = info_of(#[trigger] msgs[k]);
                info.stock_name == sn && info.volume_moved != 0 && info.stock_interval == 1
            },
    ensures
        assoc_get(admit_all(v, msgs).latest, sn) == Some(msgs.last()),
{
    let prev = admit_all(v, msgs.drop_last());
    assert(msgs.last() == msgs[msgs.len() - 1]);
    crate::assoc::lemma_get_after_update_same(prev.latest, sn, msgs.last());
}

/// Law: FIFO eviction — a run of admits for one (subject, interval) key,
/// starting from no tape, leaves exactly the most recent 120 of them, in
/// arrival order.
pub proof fn lemma_history_fifo(v: CacheView, msgs: Seq<Seq<char>>, sn: Seq<char>, si: int)
    requires
        !assoc_contains(v.history, (sn, si)),
        forall|k: int|
            0 <= k < msgs.len() ==> {
                let info = info_of(#[trigger] msgs[k]);
                info.stock_name == sn && info.stock_interval == si
            },
    ensures
        msgs.len() == 0 ==> !assoc_contains(admit_all(v, msgs).history, (sn, si)),
        msgs.len() > 0 ==> assoc_get(admit_all(v, msgs).history, (sn, si)) == Some(
            if msgs.len() <= HISTORY_CAPACITY {
                msgs
            } else {
                msgs.subrange(msgs.len() - HISTORY_CAPACITY, msgs.len() as int)
            },
        ),
    decreases msgs.len(),
{
    let key = (sn, si);
    if msgs.len() > 0 {
        let earlier = msgs.drop_last();
        let last = msgs.last();
        assert(forall|k: int| 0 <= k < earlier.len() ==> earlier[k] == msgs[k]);
        lemma_history_fifo(v, earlier, sn, si);
        let prev = admit_all(v, earlier);
        assert(last == msgs[msgs.len() - 1]);
        let n = msgs.len() as int;
        if earlier.len() == 0 {
            lemma_contains_iff_get_some(prev.history, key);
            lemma_get_after_update_same(prev.history, key, push_evict(Seq::empty(), last));
            assert(push_evict(Seq::<Seq<char>>::empty(), last) =~= msgs);
        } else {
            let m = earlier.len() as int;
            let buf_prev = if m <= HISTORY_CAPACITY {
                earlier
            } else {
                earlier.subrange(m - HISTORY_CAPACITY, m)
            };
            lemma_get_after_update_same(prev.history, key, push_evict(buf_prev, last));
            if m < HISTORY_CAPACITY {
                assert(push_evict(buf_prev, last) =~= msgs);
            } else if m == HISTORY_CAPACITY {
                assert(push_evict(buf_prev, last) =~= msgs.subrange(n - HISTORY_CAPACITY, n));
            } else {
                assert(push_evict(buf_prev, last) =~= msgs.subrange(n - HISTORY_CAPACITY, n));
            }
        }
    }
}

} // verus!
