[package]
name = "passman"
version = "0.1.0"
edition = "2021"
publish = false

[dependencies]
argon2 = "0.5"
chacha20poly1305 = "0.10"
rand = "0.8"
tokio = { version = "1", features = ["net", "io-util", "rt-multi-thread", "macros"] }
