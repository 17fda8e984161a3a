[package]
name = "webtorrent"
version = "0.1.0"
edition = "2021"
publish = false

[dependencies]
bytes = "1"
bitvec = "1"
sha1 = "0.10"
hex = "0.4"
base32 = "0.4"
url = "2"
urlencoding = "2"
tokio = { version = "1", features = ["full"] }
reqwest = { version = "0.12", default-features = false }
libp2p = { version = "0.56", features = ["kad", "mdns", "tcp", "noise", "yamux", "tokio"] }
igd = "0.12"
natpmp = "*"
rand = "0.8"
serde = { version = "1", features = ["derive"] }
thiserror = "1"
futures = { version = "0.3", features = ["thread-pool"] }
async-trait = "0.1"
tracing = "0.1"
tracing-subscriber = "0.3"
