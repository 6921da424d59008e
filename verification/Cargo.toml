[package]
name = "stronghold_p2p"
version = "0.1.0"
edition = "2021"
publish = false

[dependencies]
futures = "0.3"
smallvec = "1"
serde = { version = "1", features = ["derive"] }
serde_json = "1"
