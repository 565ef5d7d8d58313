use stock_notifier::stock_information_cache::StockInformationCache;
use stock_notifier::websocket_server::WebSocketServer;

fn update(sn: &str, si: usize, vm: i64, t: i64) -> String {
    format!("{{sn:{},si:{},vm:{},t:{}}}", sn, si, vm, t)
}

#[test]
fn add_json_returns_the_subject_name() {
    let mut cache = StockInformationCache::new();
    let name = cache.add_json(&update("AAPL", 1, 100, 1));
    assert_eq!(name, "AAPL");
}

#[test]
fn first_update_for_a_subject_becomes_its_latest_value() {
    let mut cache = StockInformationCache::new();
    let msg = update("AAPL", 2, 0, 1);
    cache.add_json(&msg);
    assert!(cache.has_key(&"AAPL".to_string()));
    assert_eq!(cache.get_entire_cache()[0], msg);
}

#[test]
fn latest_value_is_replaced_only_by_finest_interval_nonzero_volume() {
    let mut cache = StockInformationCache::new();
    let first = update("AAPL", 1, 100, 1);
    cache.add_json(&first);
    // zero volume: throttled, latest untouched
    cache.add_json(&update("AAPL", 1, 0, 2));
    assert_eq!(cache.get_entire_cache()[0], first);
    // coarser interval: throttled too
    cache.add_json(&update("AAPL", 2, 50, 3));
    assert_eq!(cache.get_entire_cache()[0], first);
    // finest interval with volume: replaced
    let fresh = update("AAPL", 1, 7, 4);
    cache.add_json(&fresh);
    assert_eq!(cache.get_entire_cache()[0], fresh);
}

#[test]
fn repeated_identical_admits_keep_the_same_latest_value() {
    let mut cache = StockInformationCache::new();
    let msg = update("AAPL", 1, 100, 1);
    cache.add_json(&msg);
    cache.add_json(&msg);
    cache.add_json(&msg);
    assert!(cache.has_key(&"AAPL".to_string()));
    let snapshot = cache.get_entire_cache();
    // one latest value plus three history entries, all equal to the message
    assert_eq!(snapshot.len(), 4);
    assert!(snapshot.iter().all(|m| *m == msg));
}

#[test]
fn history_keeps_only_the_most_recent_120_updates() {
    let mut cache = StockInformationCache::new();
    for t in 1..=121i64 {
        cache.add_json(&update("AAPL", 1, 100, t));
    }
    let snapshot = cache.get_entire_cache();
    // one latest value followed by the history tape
    assert_eq!(snapshot.len(), 1 + 120);
    let history = &snapshot[1..];
    // update 1 was evicted: the tape holds updates 2..=121 in arrival order
    assert_eq!(history[0], update("AAPL", 1, 100, 2));
    assert_eq!(history[119], update("AAPL", 1, 100, 121));
    for (k, msg) in history.iter().enumerate() {
        assert_eq!(*msg, update("AAPL", 1, 100, (k as i64) + 2));
    }
}

#[test]
fn snapshot_holds_every_latest_value_and_every_history_entry() {
    let server = WebSocketServer::new(
        "localhost:9003",
        "localhost:9004",
        vec!["AAPL".to_string(), "MSFT".to_string()],
    );
    let broker = server.initial_state();
    let snapshot = broker.stock_information_cache.get_entire_cache();
    // two latest values plus one history entry per seeded subject
    assert_eq!(snapshot.len(), 4);
}

#[test]
fn get_stock_names_lists_primary_interval_subjects_in_order() {
    let server = WebSocketServer::new(
        "localhost:9003",
        "localhost:9004",
        vec!["AAPL".to_string(), "MSFT".to_string()],
    );
    let mut broker = server.initial_state();
    assert_eq!(broker.stock_information_cache.get_stock_names(), "AAPL|MSFT|");
    // a non-primary interval does not join the directory listing
    broker.stock_information_cache.add_json(&update("TSLA", 1, 100, 1));
    assert_eq!(broker.stock_information_cache.get_stock_names(), "AAPL|MSFT|");
    broker.stock_information_cache.add_json(&update("TSLA", 0, 100, 2));
    assert_eq!(broker.stock_information_cache.get_stock_names(), "AAPL|MSFT|TSLA|");
}

#[test]
fn history_tapes_are_kept_per_subject_and_interval() {
    let mut cache = StockInformationCache::new();
    cache.add_json(&update("AAPL", 1, 100, 1));
    cache.add_json(&update("AAPL", 2, 100, 2));
    cache.add_json(&update("AAPL", 1, 100, 3));
    // one latest value, two tapes of two and one entries
    assert_eq!(cache.get_entire_cache().len(), 1 + 3);
}
