[package]
name = "stock_notifier"
version = "0.1.0"
edition = "2021"
publish = false

[dependencies]
tungstenite = "*"
postgres = "*"
