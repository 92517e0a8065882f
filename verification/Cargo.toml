[package]
name = "ledger"
version = "0.1.0"
edition = "2021"
publish = false

[dependencies]
rust_decimal = "=1.43.0"
chrono = "=0.4.45"
atoi = "=2.0.0"
regex = "=1.13.1"
serde = { version = "1", features = ["derive"] }
serde_json = "1"
clap = { version = "4", features = ["derive"] }
