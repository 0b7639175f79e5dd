[package]
name = "bytepress"
version = "0.1.0"
edition = "2021"
publish = false

[dependencies]
bitvec = { version = "1", features = ["serde"] }
rmp-serde = "1"
serde = { version = "1", features = ["derive"] }

[dev-dependencies]
rand = "0.8"
