[package]
name = "ballista-scheduler"
version = "0.1.0"
edition = "2021"
publish = false

[dependencies]
ballista-core = "=0.12.0"
chrono = "=0.4.38"
clap = { version = "=3.2.25", features = ["derive"] }
datafusion = "=35.0.0"
datafusion-proto = "=35.0.0"
etcd-client = "=0.12.4"
futures = "=0.3.34"
log = "=0.4.34"
parse_arg = "=0.1.6"
prost = "=0.12.6"
serde = { version = "=1.0.229", features = ["derive"] }
sled = "0.34"
tokio = { version = "=1.54.1", features = ["sync"] }
tonic = "=0.10.2"
