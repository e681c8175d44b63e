[package]
name = "dirgrep"
version = "0.1.0"
edition = "2021"
publish = false

[dependencies]
clap = { version = "4", features = ["derive"] }
colored = "2"
futures = "0.3"
tokio = { version = "1", features = ["macros", "rt-multi-thread"] }
