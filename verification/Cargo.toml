[package]
name = "ramph"
version = "0.1.0"
edition = "2021"
publish = false

[dependencies]
amp-sdk = "*"
chrono = "*"
clap = { version = "*", features = ["derive"] }
colored = "*"
futures = "*"
indicatif = "*"
tokio = { version = "*", features = ["macros", "rt-multi-thread"] }
