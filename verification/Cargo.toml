[package]
name = "bplus_dht"
version = "0.1.0"
edition = "2021"
publish = false

[dependencies]
rand = "=0.8.8"
libp2p = { version = "=0.53.2", default-features = false, features = ["tokio", "tcp", "dns", "noise", "yamux", "macros", "ed25519", "kad", "mdns", "gossipsub", "request-response"] }
tokio = { version = "1", features = ["full"] }
futures = "0.3"
serde = { version = "1", features = ["derive"] }
serde_json = "1"
async-trait = "0.1"
void = "1"
