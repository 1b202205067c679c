[package]
name = "trading"
version = "0.1.0"
edition = "2021"
publish = false

[dependencies]
rustc-hash = "2"
chrono = { version = "0.4", default-features = false, features = ["clock"] }
serde = { version = "1", features = ["derive"] }
serde_json = "1"
io-uring = "0.7"
libc = "0.2"
crossbeam-channel = "0.5"
tokio = { version = "1", default-features = false, features = ["sync", "rt"] }
actix-web = { version = "4", default-features = false, features = ["macros"] }
