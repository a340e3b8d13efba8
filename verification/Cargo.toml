[package]
name = "rolling_hash_diff"
version = "0.1.0"
edition = "2021"
publish = false

[dependencies]
adler = "1"
sha1 = "0.10"
bincode = "1.3"
serde = { version = "1", features = ["derive"] }
