//! The two listeners' configuration and the broker's initial state.
//!
//! Binding sockets, accepting connections and spawning the per-connection
//! tasks happen outside this crate; what is here is everything those loops
//! compute on shared state: the seeded cache every run starts from, and
//! the keepalive cadence of the egress send loop.

use crate::broker::Broker;
use crate::codec::{decoded_pairs, plain_text, scan, scan_step, ScanState};
use crate::outbound_queue::OutboundQueueTable;
use crate::stock_information::{info_init, info_of, info_of_pairs};
use crate::stock_information_cache::{
    admit_all, empty_cache, lemma_admit_keeps_and_adds_latest, StockInformationCache,
};
use crate::subscriptions::SubscriptionRegistry;
use vstd::prelude::*;

verus! {

/// Idle drain cycles between keepalive pings on the egress send loop.
pub const KEEPALIVE_IDLE_CYCLES: usize = 100;

/// One idle tick of a send loop: counts the cycle and says whether a
/// keepalive ping is due, resetting the counter when it is.
pub fn keepalive_tick(ping_cnt: usize) -> (r: (usize, bool))
    ensures
        r.1 == (ping_cnt + 1 >= KEEPALIVE_IDLE_CYCLES),
        r.0 as int == if ping_cnt + 1 >= KEEPALIVE_IDLE_CYCLES {
            0int
        } else {
            ping_cnt as int + 1
        },
{
    if ping_cnt >= KEEPALIVE_IDLE_CYCLES - 1 {
        (0, true)
    } else {
        (ping_cnt + 1, false)
    }
}

/// The ingestion listener's configuration: where publishers connect.  Its
/// accept/read loop runs outside this crate and hands each text frame to
/// `Broker::handle_update_message`.
pub struct NotificationServerIn {
    pub ip_server: String,
}

impl NotificationServerIn {
    pub fn new(ip_server: String) -> (r: Self)
        ensures
            r.ip_server@ == ip_server@,
    {
        NotificationServerIn { ip_server }
    }
}

/// The egress listener's configuration: where subscribers connect.  Its
/// accept loop and the per-connection receive/send tasks run outside this
/// crate, deciding through `Broker::handle_subscription_request`,
/// `OutboundQueueTable::drain_and_clear` and `keepalive_tick`.
pub struct NotificationServerOut {
    pub ip_server: String,
}

impl NotificationServerOut {
    pub fn new(ip_server: String) -> (r: Self)
        ensures
            r.ip_server@ == ip_server@,
    {
        NotificationServerOut { ip_server }
    }
}

/// The synthetic primary-interval record admitted for each configured
/// subject, so the subject is subscribable before any real update.
pub open spec fn seed_message(name: Seq<char>) -> Seq<char> {
    "{sn:"@ + name + ",si:0}"@
}

/// A subject name the wire format carries verbatim: nonempty, with no
/// structural or separator characters.
pub open spec fn plain_subject(name: Seq<char>) -> bool {
    name.len() > 0 && plain_text(name)
}

/// Scanning the seed message's opening leaves `sn` as the pending key and
/// the subject name as the fragment.
proof fn lemma_scan_seed_prefix(name: Seq<char>)
    requires
        plain_text(name),
    ensures
        scan("{sn:"@ + name) == (ScanState {
            key: "sn"@,
            fragment: name,
            pairs: Seq::<(Seq<char>, Seq<char>)>::empty(),
        }),
    decreases name.len(),
{
    if name.len() == 0 {
        reveal_strlit("{sn:");
        reveal_strlit("sn");
        let s4 = "{sn:"@;
        let s3 = s4.drop_last();
        let s2 = s3.drop_last();
        let s1 = s2.drop_last();
        let s0 = s1.drop_last();
        assert(s0.len() == 0);
        assert(scan(s1) == scan_step(scan(s0), '{'));
        assert(scan(s2) == scan_step(scan(s1), 's'));
        assert(scan(s3) == scan_step(scan(s2), 'n'));
        assert(scan(s4) == scan_step(scan(s3), ':'));
        assert(scan(s4).key =~= "sn"@);
        assert(scan(s4).fragment =~= name);
        assert(scan(s4).pairs =~= Seq::<(Seq<char>, Seq<char>)>::empty());
        assert(s4 + name =~= s4);
    } else {
        let shorter = name.drop_last();
        let c = name.last();
        assert(plain_text(shorter));
        lemma_scan_seed_prefix(shorter);
        let whole = "{sn:"@ + name;
        assert(whole.drop_last() =~= "{sn:"@ + shorter);
        assert(whole.last() == c);
        assert(scan(whole) == scan_step(scan("{sn:"@ + shorter), c));
        assert(scan(whole).fragment =~= name);
    }
}

/// What a seed message decodes to: the subject name under `sn` and the
/// primary interval under `si`.
pub proof fn lemma_seed_message_decodes(name: Seq<char>)
    requires
        plain_subject(name),
    ensures
        decoded_pairs(seed_message(name)) == seq![("sn"@, name), ("si"@, "0"@)],
        info_of(seed_message(name)).stock_name == name,
        info_of(seed_message(name)).stock_interval == 0,
        info_of(seed_message(name)).volume_moved == 0,
{
    lemma_scan_seed_prefix(name);
    reveal_strlit("{sn:");
    reveal_strlit(",si:0}");
    reveal_strlit("sn");
    reveal_strlit("si");
    reveal_strlit("0");
    let p = "{sn:"@ + name;
    let t = ",si:0}"@;
    let u1 = p + t.subrange(0, 1);
    let u2 = p + t.subrange(0, 2);
    let u3 = p + t.subrange(0, 3);
    let u4 = p + t.subrange(0, 4);
    let u5 = p + t.subrange(0, 5);
    let u6 = p + t.subrange(0, 6);
    assert(u1.drop_last() =~= p && u1.last() == ',');
    assert(scan(u1) == scan_step(scan(p), ','));
    assert(u2.drop_last() =~= u1 && u2.last() == 's');
    assert(scan(u2) == scan_step(scan(u1), 's'));
    assert(u3.drop_last() =~= u2 && u3.last() == 'i');
    assert(scan(u3) == scan_step(scan(u2), 'i'));
    assert(u4.drop_last() =~= u3 && u4.last() == ':');
    assert(scan(u4) == scan_step(scan(u3), ':'));
    assert(u5.drop_last() =~= u4 && u5.last() == '0');
    assert(scan(u5) == scan_step(scan(u4), '0'));
    assert(u6.drop_last() =~= u5 && u6.last() == '}');
    assert(scan(u6) == scan_step(scan(u5), '}'));
    assert(seed_message(name) =~= u6);
    assert(scan(u1).pairs =~= seq![("sn"@, name)]);
    assert(scan(u3).fragment =~= "si"@);
    assert(scan(u4).key =~= "si"@);
    assert(scan(u5).fragment =~= "0"@);
    assert(decoded_pairs(seed_message(name)) =~= seq![("sn"@, name), ("si"@, "0"@)]);
    // the decoded record: `sn` stores the name, `si` parses to zero
    let pairs = seq![("sn"@, name), ("si"@, "0"@)];
    let one = seq![("sn"@, name)];
    let no_pairs = Seq::<(Seq<char>, Seq<char>)>::empty();
    assert(pairs.drop_last() =~= one);
    assert(one.drop_last() =~= no_pairs);
    assert(info_of_pairs(no_pairs) == info_init());
    let after_sn = crate::stock_information::info_insert(info_init(), "sn"@, name);
    assert(info_of_pairs(one) == after_sn);
    assert(after_sn.stock_name == name);
    assert("si"@ != "sn"@) by {
        assert("si"@[1] != "sn"@[1]);
    }
    assert(crate::numbers::usize_value_of("0"@) == Some(0int)) by {
        assert(crate::numbers::digits_value("0"@.drop_last()) == 0) by {
            assert("0"@.drop_last().len() == 0);
        }
        assert(crate::numbers::digits_value("0"@) == 0);
        assert(crate::numbers::all_digits("0"@));
    }
    assert(info_of_pairs(pairs) == crate::stock_information::info_insert(after_sn, "si"@, "0"@));
    assert(info_of(seed_message(name)) == info_of_pairs(pairs));
}

/// Law: seeding makes every configured subject subscribable — after the
/// whole seed run, each plain name has a latest-value entry.
pub proof fn lemma_seeded_cache_contains(names: Seq<Seq<char>>, k: int)
    requires
        0 <= k < names.len(),
        plain_subject(names[k]),
    ensures
        crate::assoc::assoc_contains(
            admit_all(empty_cache(), names.map_values(|n: Seq<char>| seed_message(n))).latest,
            names[k],
        ),
    decreases names.len(),
{
    let seeds = names.map_values(|n: Seq<char>| seed_message(n));
    let earlier = names.drop_last();
    let earlier_seeds = earlier.map_values(|n: Seq<char>| seed_message(n));
    assert(earlier_seeds =~= seeds.drop_last());
    let prev = admit_all(empty_cache(), earlier_seeds);
    if k == names.len() - 1 {
        lemma_seed_message_decodes(names[k]);
        lemma_admit_keeps_and_adds_latest(prev, seed_message(names[k]), names[k]);
    } else {
        lemma_seeded_cache_contains(earlier, k);
        lemma_admit_keeps_and_adds_latest(prev, seed_message(names.last()), names[k]);
    }
}

/// The composition root's configuration: the two bind addresses and the
/// subject list the cache is seeded with.
pub struct WebSocketServer {
    pub ip_server_in: String,
    pub ip_server_out: String,
    pub stock_list: Vec<String>,
}

impl WebSocketServer {
    pub fn new(ip_server_in: &str, ip_server_out: &str, stock_list: Vec<String>) -> (r: Self)
        ensures
            r.ip_server_in@ == ip_server_in@,
            r.ip_server_out@ == ip_server_out@,
            r.stock_list == stock_list,
    {
        WebSocketServer {
            ip_server_in: String::from_str(ip_server_in),
            ip_server_out: String::from_str(ip_server_out),
            stock_list,
        }
    }

    /// The broker state the listeners start from: a cache seeded with one
    /// synthetic record per configured subject, no subscriptions, no
    /// queues, identifiers from zero.
    pub fn initial_state(&self) -> (r: Broker)
        ensures
            r.wf(),
            r.next_id == 0,
            r.subscriber_map@ == Seq::<(Seq<char>, Set<int>)>::empty(),
            r.connection_queue@ == Seq::<(int, Seq<Seq<char>>)>::empty(),
            r.stock_information_cache@ == admit_all(
                empty_cache(),
                self.stock_list.deep_view().map_values(|n: Seq<char>| seed_message(n)),
            ),
            forall|k: int|
                0 <= k < self.stock_list@.len() && plain_subject(
                    #[trigger] self.stock_list.deep_view()[k],
                ) ==> crate::assoc::assoc_contains(
                    r.stock_information_cache@.latest,
                    self.stock_list.deep_view()[k],
                ),
    {
        let ghost seeds = self.stock_list.deep_view().map_values(
            |n: Seq<char>| seed_message(n),
        );
        let mut cache = StockInformationCache::new();
        proof {
            assert(cache@ == empty_cache());
            assert(seeds.subrange(0, 0) =~= Seq::<Seq<char>>::empty());
        }
        let mut i: usize = 0;
        while i < self.stock_list.len()
            invariant
                i <= self.stock_list@.len(),
                seeds == self.stock_list.deep_view().map_values(|n: Seq<char>| seed_message(n)),
                cache.wf(),
                cache@ == admit_all(empty_cache(), seeds.subrange(0, i as int)),
            decreases self.stock_list@.len() - i,
        {
            let mut msg = String::from_str("{sn:");
            msg.append(self.stock_list[i].as_str());
            msg.append(",si:0}");
            proof {
                assert(msg@ =~= seed_message(self.stock_list@[i as int]@));
                assert(seeds.subrange(0, (i + 1) as int).drop_last() =~= seeds.subrange(
                    0,
                    i as int,
                ));
                assert(seeds.subrange(0, (i + 1) as int).last() == seeds[i as int]);
            }
            let _name = cache.add_json(msg.as_str());
            i = i + 1;
        }
        proof {
            assert(seeds.subrange(0, seeds.len() as int) =~= seeds);
            assert forall|k: int|
                0 <= k < self.stock_list@.len() && plain_subject(
                    #[trigger] self.stock_list.deep_view()[k],
                ) implies crate::assoc::assoc_contains(
                cache@.latest,
                self.stock_list.deep_view()[k],
            ) by {
                lemma_seeded_cache_contains(self.stock_list.deep_view(), k);
            }
        }
        Broker {
            stock_information_cache: cache,
            subscriber_map: SubscriptionRegistry::new(),
            connection_queue: OutboundQueueTable::new(),
            next_id: 0,
        }
    }
}

} // verus!
