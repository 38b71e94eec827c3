[package]
name = "omnikv"
version = "0.1.0"
edition = "2021"
publish = false

[dependencies]
omnipaxos = { version = "=0.2.3", features = ["serde"] }
omnipaxos_storage = "=0.2.3"
serde = { version = "=1.0.229", features = ["derive"] }
tokio = { version = "=1.53.2", features = ["full"] }
axum = "=0.8.9"
hyper = "=1.12.0"
reqwest = { version = "=0.13.5", default-features = false, features = ["json"] }
