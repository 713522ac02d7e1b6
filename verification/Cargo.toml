[package]
name = "frontier_sim"
version = "0.1.0"
edition = "2021"
publish = false

[dependencies]
clap = { version = "=4.6.7", features = ["derive"] }
crossbeam-channel = "=0.5.17"
curl = { version = "=0.4.51", features = ["static-curl", "poll_7_68_0"] }
curl-sys = "=0.4.91"
rusqlite = { version = "=0.41.1", features = ["bundled"] }
serde = { version = "=1.0.229", features = ["derive"] }
serde_json = "=1.0.154"
sha2 = "=0.10.9"
thiserror = "=2.0.21"
toml = "=0.8.23"
ureq = { version = "=3.5.1", features = ["json"] }
