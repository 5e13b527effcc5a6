[package]
name = "score_rank"
version = "0.1.0"
edition = "2021"
publish = false

[dependencies]
tokio = { version = "*", features = ["rt-multi-thread", "macros", "sync"] }
tokio-stream = "*"
tonic = "*"
sqlx = { version = "*", default-features = false, features = ["runtime-tokio", "postgres"] }
