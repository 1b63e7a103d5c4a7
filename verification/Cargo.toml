[package]
name = "ctcp"
version = "0.1.0"
edition = "2021"
publish = false

[dependencies]
aggligator = { version = "=0.9.12", features = ["dump"] }
aggligator-transport-tcp = "=0.2.5"
aggligator-transport-websocket = "=0.5.2"
aggligator-wrapper-tls = "=0.2.0"
anyhow = "=1.0.104"
async-trait = "=0.1.92"
axum-server = "=0.8.0"
bytes = "=1.12.1"
clap = { version = "=4.6.7", features = ["derive"] }
clap_mangen = "=0.3.3"
clap-markdown = "=0.1.5"
crossterm = "=0.29.0"
futures = "=0.3.34"
gethostname = "=1.1.0"
network-interface = "=2.0.5"
rand = { version = "=0.8.8", features = ["small_rng"] }
rand_xoshiro = "=0.6.0"
rustls = "=0.23.46"
rustls-pemfile = "=2.2.0"
serde = { version = "=1.0.229", features = ["derive"] }
serde_json = "=1.0.154"
socket2 = "=0.6.5"
tokio = { version = "=1.54.1", features = ["full"] }
tracing = "=0.1.44"
tracing-log = "=0.2.0"
tracing-subscriber = { version = "=0.3.23", features = ["env-filter"] }
