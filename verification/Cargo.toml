[package]
name = "presence_stats"
version = "0.1.0"
edition = "2021"
publish = false

[dependencies]
iset = "*"
chrono = "0.4"
anyhow = "1"
humantime = "2"
log = "0.4"
colog = "*"
tokio = { version = "1", features = ["rt-multi-thread"] }
sea-orm = { version = "*", features = ["sqlx-sqlite", "runtime-tokio-rustls"] }
