[package]
name = "nebula"
version = "0.1.0"
edition = "2021"
publish = false

[dependencies]
procfs = "*"
sqlx = { version = "*", default-features = false, features = ["runtime-tokio", "sqlite"] }
tokio = { version = "*", features = ["rt-multi-thread", "macros", "sync", "time"] }
tracing = "*"
tracing-subscriber = "*"
