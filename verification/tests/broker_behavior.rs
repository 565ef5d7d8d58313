use stock_notifier::broker::Broker;
use stock_notifier::websocket_server::{keepalive_tick, WebSocketServer, KEEPALIVE_IDLE_CYCLES};

fn update(sn: &str, si: usize, vm: i64, t: i64) -> String {
    format!("{{sn:{},si:{},vm:{},t:{}}}", sn, si, vm, t)
}

fn subscribe_req(name: &str) -> String {
    format!("{{\"stock\": \"{}\"}}", name)
}

fn seeded_broker() -> Broker {
    WebSocketServer::new(
        "localhost:9003",
        "localhost:9004",
        vec!["AAPL".to_string(), "MSFT".to_string()],
    ).initial_state()
}

fn drain(broker: &mut Broker, id: usize) -> Vec<String> {
    broker.connection_queue.drain_and_clear(id).expect("queue should exist")
}

#[test]
fn fresh_connections_get_increasing_identifiers_and_empty_queues() {
    let mut broker = seeded_broker();
    let a = broker.accept_connection();
    let b = broker.accept_connection();
    assert_eq!(a, 0);
    assert_eq!(b, 1);
    assert_eq!(drain(&mut broker, a), Vec::<String>::new());
    assert_eq!(drain(&mut broker, b), Vec::<String>::new());
}

#[test]
fn a_subscriber_receives_exactly_one_copy_of_its_subjects_update() {
    let mut broker = seeded_broker();
    let id = broker.accept_connection();
    let outcome = broker.handle_subscription_request(id, &subscribe_req("AAPL"));
    assert_eq!(outcome, Some("AAPL".to_string()));
    let msg = update("AAPL", 1, 100, 1);
    broker.handle_update_message(&msg);
    assert_eq!(drain(&mut broker, id), vec![msg]);
    // exactly once: nothing left afterwards
    assert_eq!(drain(&mut broker, id), Vec::<String>::new());
}

#[test]
fn a_subscriber_does_not_receive_other_subjects_updates() {
    let mut broker = seeded_broker();
    let id = broker.accept_connection();
    broker.handle_subscription_request(id, &subscribe_req("AAPL"));
    broker.handle_update_message(&update("MSFT", 1, 100, 1));
    assert_eq!(drain(&mut broker, id), Vec::<String>::new());
}

#[test]
fn switching_subscription_moves_the_connection_between_subjects() {
    let mut broker = seeded_broker();
    let id = broker.accept_connection();
    broker.handle_subscription_request(id, &subscribe_req("AAPL"));
    broker.handle_subscription_request(id, &subscribe_req("MSFT"));
    broker.handle_update_message(&update("AAPL", 1, 100, 1));
    assert_eq!(drain(&mut broker, id), Vec::<String>::new());
    let msg = update("MSFT", 1, 100, 2);
    broker.handle_update_message(&msg);
    assert_eq!(drain(&mut broker, id), vec![msg]);
}

#[test]
fn an_unknown_subject_leaves_the_existing_subscription_unchanged() {
    let mut broker = seeded_broker();
    let id = broker.accept_connection();
    broker.handle_subscription_request(id, &subscribe_req("AAPL"));
    let outcome = broker.handle_subscription_request(id, &subscribe_req("UNKNOWN"));
    assert_eq!(outcome, None);
    let msg = update("AAPL", 1, 100, 1);
    broker.handle_update_message(&msg);
    assert_eq!(drain(&mut broker, id), vec![msg]);
}

#[test]
fn a_malformed_subscription_request_changes_nothing() {
    let mut broker = seeded_broker();
    let id = broker.accept_connection();
    broker.handle_subscription_request(id, &subscribe_req("AAPL"));
    assert_eq!(broker.handle_subscription_request(id, &"{\"nonsense\": \"x\"}".to_string()), None);
    assert_eq!(broker.handle_subscription_request(id, &"".to_string()), None);
    let msg = update("AAPL", 1, 100, 1);
    broker.handle_update_message(&msg);
    assert_eq!(drain(&mut broker, id), vec![msg]);
}

#[test]
fn wildcard_subscribe_replaces_the_queue_with_the_snapshot() {
    let mut broker = seeded_broker();
    let id = broker.accept_connection();
    broker.handle_subscription_request(id, &subscribe_req("AAPL"));
    // leave something pending, to be discarded by the backfill
    broker.handle_update_message(&update("AAPL", 1, 100, 1));
    let snapshot = broker.stock_information_cache.get_entire_cache();
    let outcome = broker.handle_subscription_request(id, &subscribe_req("*"));
    assert_eq!(outcome, Some("*".to_string()));
    let pending = drain(&mut broker, id);
    assert_eq!(pending, snapshot);
    // seeded latest values (2) and history entries (2), plus the one update
    // admitted above in both roles
    assert_eq!(pending.len(), 2 + 3);
}

#[test]
fn wildcard_and_named_subscribers_both_receive_a_matching_update() {
    let mut broker = seeded_broker();
    let a = broker.accept_connection();
    let b = broker.accept_connection();
    let c = broker.accept_connection();
    broker.handle_subscription_request(a, &subscribe_req("*"));
    broker.handle_subscription_request(b, &subscribe_req("AAPL"));
    broker.handle_subscription_request(c, &subscribe_req("MSFT"));
    drain(&mut broker, a);  // discard A's backfill
    let msg = update("AAPL", 1, 100, 1);
    broker.handle_update_message(&msg);
    assert_eq!(drain(&mut broker, a), vec![msg.clone()]);
    assert_eq!(drain(&mut broker, b), vec![msg]);
    assert_eq!(drain(&mut broker, c), Vec::<String>::new());
}

#[test]
fn receiver_close_stops_delivery_to_that_connection() {
    let mut broker = seeded_broker();
    let id = broker.accept_connection();
    broker.handle_subscription_request(id, &subscribe_req("AAPL"));
    broker.handle_receiver_close(id, &"AAPL".to_string());
    broker.handle_update_message(&update("AAPL", 1, 100, 1));
    assert_eq!(drain(&mut broker, id), Vec::<String>::new());
}

#[test]
fn sender_close_tears_the_queue_down_and_enqueues_are_ignored() {
    let mut broker = seeded_broker();
    let id = broker.accept_connection();
    broker.handle_subscription_request(id, &subscribe_req("AAPL"));
    broker.handle_sender_close(id);
    assert_eq!(broker.connection_queue.drain_and_clear(id), None);
    // fan-out to the torn-down connection is silently ignored
    broker.handle_update_message(&update("AAPL", 1, 100, 1));
    assert_eq!(broker.connection_queue.drain_and_clear(id), None);
}

#[test]
fn keepalive_fires_after_the_configured_idle_cycles() {
    let mut cnt: usize = 0;
    let mut pings: usize = 0;
    for _ in 0..(2 * KEEPALIVE_IDLE_CYCLES) {
        let (next, due) = keepalive_tick(cnt);
        cnt = next;
        if due {
            pings += 1;
            assert_eq!(cnt, 0);
        }
    }
    assert_eq!(pings, 2);
}
