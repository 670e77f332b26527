[package]
name = "invariant_finder_rust"
version = "0.1.0"
edition = "2021"
publish = false

[dependencies]
regex = "1"
hibitset = "0.6"
serde = { version = "1", features = ["derive"] }
serde_json = "1"
