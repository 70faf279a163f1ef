[package]
name = "zenoh-plugin-lcm"
version = "0.1.0"
edition = "2021"
publish = false

[dependencies]
clap = "3.2"
flume = "0.11"
futures = "0.3"
git-version = "0.3"
lazy_static = "1.4"
regex = "1"
serde = { version = "1", features = ["derive"] }
serde_json = "1"
socket2 = { version = "0.5", features = ["all"] }
tokio = { version = "1", features = ["macros", "net", "rt-multi-thread", "sync", "time"] }
tracing = "0.1"
zenoh = { version = "1", default-features = false, features = ["internal", "internal_config", "plugins", "transport_tcp", "transport_udp", "unstable"] }
zenoh-config = "1"
zenoh-plugin-trait = "1"
