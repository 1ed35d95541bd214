[package]
name = "confsync"
version = "0.1.0"
edition = "2021"
publish = false

[dependencies]
anyhow = "=1.0.104"
async-trait = "=0.1.92"
etcd-client = "=0.9.2"
hocon = "=0.9.0"
log = "=0.4.34"
rdkafka = { version = "=0.39.0", default-features = false }
thiserror = "=1.0.69"
tokio = { version = "=1.53.2", features = ["rt-multi-thread", "time", "macros"] }
