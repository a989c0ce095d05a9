[package]
name = "minikv"
version = "0.1.0"
edition = "2021"
publish = false

[dependencies]
tokio = { version = "1", features = ["rt-multi-thread", "net", "io-util", "time", "macros"] }
clap = { version = "4", features = ["derive"] }
