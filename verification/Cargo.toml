[package]
name = "common"
version = "0.1.0"
edition = "2021"
publish = false

[dependencies]
encoding_rs = "0.8"
anyhow = "1"
bincode = "1"
flate2 = "1"
serde = { version = "1", features = ["derive"] }
serde_json = "1"
ureq = { version = "2", default-features = false, features = ["json"] }
rusqlite = { version = "*", features = ["bundled"] }
chrono = "0.4"
crossterm = "*"
indicatif = "0.17"
