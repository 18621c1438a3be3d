[package]
name = "warden"
version = "0.1.0"
edition = "2021"
publish = false

[dependencies]
biscuit-auth = "5"
blake3 = { version = "1", features = ["pure"] }
uuid = { version = "1", features = ["v4"] }
chrono = "0.4"
serde = { version = "1", features = ["derive"] }
serde_json = "1"
anyhow = "1"
thiserror = "1"
reqwest = { version = "0.12", default-features = false, features = ["blocking", "json"] }
