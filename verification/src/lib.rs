//! A small publish/subscribe broker for near-real-time market-data updates.
//!
//! Publishers send flat key-value text messages describing one stock update
//! each.  The broker keeps the most recent admitted message per subject, a
//! bounded history tape per (subject, interval) pair, a registry of which
//! connection is subscribed to which subject, and one pending-message queue
//! per live connection.  The network-facing loops live outside this crate;
//! everything they decide — decoding, admission, fan-out, subscription
//! changes, backfill — is here, with contracts.

pub mod assoc;
pub mod broker;
pub mod codec;
pub mod numbers;
pub mod outbound_queue;
pub mod stock_information;
pub mod stock_information_cache;
pub mod subscriptions;
pub mod websocket_server;
