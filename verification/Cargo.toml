[package]
name = "http_forker"
version = "0.1.0"
edition = "2021"
publish = false

[dependencies]
log = "0.4"
tokio = { version = "1", features = ["net", "io-util", "rt-multi-thread", "macros", "sync"] }
