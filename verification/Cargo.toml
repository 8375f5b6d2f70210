[package]
name = "mocktave"
version = "0.1.0"
edition = "2021"
publish = false

[dependencies]
bollard = "*"
futures-util = "*"
tokio = { version = "*", default-features = false, features = ["rt-multi-thread"] }
