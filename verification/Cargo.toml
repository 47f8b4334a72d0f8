[package]
name = "elo_ingest"
version = "0.1.0"
edition = "2021"
publish = false

[dependencies]
tokio = { version = "*", features = ["rt-multi-thread", "macros"] }
reqwest = { version = "*", default-features = false }
futures = "*"
sqlx = { version = "*", default-features = false, features = ["sqlite", "runtime-tokio"] }
dotenv = "*"
