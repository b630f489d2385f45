[package]
name = "vectordb"
version = "0.1.0"
edition = "2021"
publish = false

[dependencies]
actix-web = { version = "4", default-features = false }
lmdb = "0.8"
serde = { version = "1", features = ["derive"] }
tempfile = "3"
