[package]
name = "firezone-tunnel"
version = "0.1.0"
edition = "2021"
publish = false

[dependencies]
boringtun = { version = "0.7", default-features = false }
bytes = { version = "1", default-features = false }
chrono = { version = "0.4", default-features = false, features = ["std", "clock"] }
clap = { version = "4", features = ["derive", "env"] }
ctrlc = "3"
futures = "0.3"
futures-util = "0.3"
hickory-resolver = "0.24"
ip_network = "0.4"
ip_network_table = "0.2"
itertools = "0.12"
parking_lot = "0.12"
pnet_packet = "0.34"
secrecy = "0.8"
tokio = { version = "1", features = ["rt", "time", "sync"] }
tracing = "0.1"
tracing-subscriber = { version = "0.3", features = ["env-filter"] }
url = "2"
webrtc = "0.9"
