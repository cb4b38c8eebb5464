[package]
name = "field_index"
version = "0.1.0"
edition = "2021"
publish = false

[dependencies]
ahash = "0.8"
chrono = { version = "0.4", default-features = false, features = ["std"] }
itertools = "0.14"
log = "0.4"
memmap2 = "0.9"
serde = { version = "1", features = ["derive"] }
serde_json = "1"
uuid = "1"
