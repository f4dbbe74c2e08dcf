[package]
name = "sigmars"
version = "0.1.0"
edition = "2021"
publish = false

[dependencies]
regex = "1"
glob = "0.3"
cidr = "0.2"
petgraph = "0.6"
serde = { version = "1", features = ["derive"] }
serde_json = "1"
serde_yaml = "0.9"
serde_yml = "*"
tokio = { version = "1", features = ["sync", "rt", "rt-multi-thread", "macros", "time"] }
tokio-util = { version = "0.7", features = ["time"] }
futures-util = "0.3"
async-trait = "0.1"
thiserror = "1"
chrono = "0.4"
