[package]
name = "tusk_rs"
version = "0.1.0"
edition = "2021"
publish = false

[dependencies]
chrono = "*"
uuid = "*"
tokio = { version = "*", features = ["rt-multi-thread", "net", "io-util", "macros"] }
tokio-postgres = "*"
deadpool-postgres = "*"
