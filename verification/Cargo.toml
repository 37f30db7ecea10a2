[package]
name = "httpframe"
version = "0.1.0"
edition = "2021"
publish = false

[dependencies]
clap = { version = "4", features = ["derive"] }
tokio = { version = "1", features = ["net", "io-util", "rt-multi-thread", "macros"] }
