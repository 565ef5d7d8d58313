use stock_notifier::outbound_queue::OutboundQueueTable;
use stock_notifier::subscriptions::SubscriptionRegistry;

fn sorted(mut v: Vec<usize>) -> Vec<usize> {
    v.sort();
    v
}

#[test]
fn targets_for_unions_the_subject_and_the_wildcard() {
    let mut reg = SubscriptionRegistry::new();
    reg.subscribe(1, &"AAPL".to_string());
    reg.subscribe(2, &"*".to_string());
    reg.subscribe(3, &"MSFT".to_string());
    assert_eq!(sorted(reg.targets_for(&"AAPL".to_string())), vec![1, 2]);
    assert_eq!(sorted(reg.targets_for(&"MSFT".to_string())), vec![2, 3]);
    assert_eq!(sorted(reg.targets_for(&"TSLA".to_string())), vec![2]);
}

#[test]
fn a_connection_sits_under_at_most_one_subject() {
    let mut reg = SubscriptionRegistry::new();
    reg.subscribe(1, &"AAPL".to_string());
    reg.subscribe(1, &"MSFT".to_string());
    assert_eq!(reg.targets_for(&"AAPL".to_string()), Vec::<usize>::new());
    assert_eq!(reg.targets_for(&"MSFT".to_string()), vec![1]);
}

#[test]
fn unsubscribe_drops_the_connection_and_tolerates_absence() {
    let mut reg = SubscriptionRegistry::new();
    reg.subscribe(1, &"AAPL".to_string());
    reg.unsubscribe(1, &"AAPL".to_string());
    assert_eq!(reg.targets_for(&"AAPL".to_string()), Vec::<usize>::new());
    // no-op on a name never seen
    reg.unsubscribe(1, &"TSLA".to_string());
    // and on an id not in the set
    reg.unsubscribe(7, &"AAPL".to_string());
}

#[test]
fn queues_are_fifo_and_drain_leaves_them_empty() {
    let mut table = OutboundQueueTable::new();
    table.create(0);
    table.enqueue(0, &"first".to_string());
    table.enqueue(0, &"second".to_string());
    assert_eq!(
        table.drain_and_clear(0),
        Some(vec!["first".to_string(), "second".to_string()])
    );
    assert_eq!(table.drain_and_clear(0), Some(Vec::new()));
}

#[test]
fn enqueue_to_a_missing_queue_is_silently_ignored() {
    let mut table = OutboundQueueTable::new();
    table.enqueue(9, &"lost".to_string());
    assert_eq!(table.drain_and_clear(9), None);
}

#[test]
fn replace_discards_whatever_was_pending() {
    let mut table = OutboundQueueTable::new();
    table.create(0);
    table.enqueue(0, &"stale".to_string());
    table.replace(0, vec!["snapshot".to_string()]);
    assert_eq!(table.drain_and_clear(0), Some(vec!["snapshot".to_string()]));
}

#[test]
fn remove_tears_the_queue_down() {
    let mut table = OutboundQueueTable::new();
    table.create(0);
    table.create(1);
    table.enqueue(1, &"kept".to_string());
    table.remove(0);
    assert_eq!(table.drain_and_clear(0), None);
    assert_eq!(table.drain_and_clear(1), Some(vec!["kept".to_string()]));
}
