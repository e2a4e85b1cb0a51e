[package]
name = "parget"
version = "0.1.0"
edition = "2021"
publish = false

[dependencies]
url = "2"
num_cpus = "1"
hyper = { version = "0.14", features = ["full"] }
hyper-rustls = "0.24"
tokio = { version = "1", features = ["full"] }
futures = "0.3"
diesel = { version = "2", features = ["sqlite", "r2d2"] }
libsqlite3-sys = { version = "*", features = ["bundled"] }
axum = "0.7"
async-trait = "0.1"
serde = { version = "1", features = ["derive"] }
multimap = "0.10"
