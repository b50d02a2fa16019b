[package]
name = "timelake"
version = "0.1.0"
edition = "2021"
publish = false

[dependencies]
arc-swap = "1"
argon2 = { version = "=0.5.3", features = ["std"] }
arrow = { version = "=59.3.2", default-features = false, features = ["ipc"] }
arrow-flight = { version = "=59.3.2", features = ["flight-sql"] }
async-trait = "0.1"
axum = "=0.8.9"
bytes = "1"
flate2 = "=1.1.10"
futures = "0.3"
lru = "=0.19.0"
prost = "=0.14.4"
reqwest = { version = "=0.13.5", default-features = false, features = ["json"] }
rustls = { version = "0.23", default-features = false, features = ["std"] }
serde = { version = "1", features = ["derive"] }
serde_json = "=1.0.154"
sha2 = "=0.10.9"
snap = "=1.1.2"
subtle = "=2.6.1"
tokio = { version = "1", features = ["macros", "net", "rt-multi-thread", "sync", "time"] }
tokio-rustls = { version = "0.26", default-features = false }
tonic = "=0.14.9"
tracing = "0.1"
