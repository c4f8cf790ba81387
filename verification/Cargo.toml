[package]
name = "drive_backup"
version = "0.1.0"
edition = "2021"
publish = false

[dependencies]
base64 = "*"
chrono = "*"
dotenvy = "*"
flate2 = "*"
glob = "*"
md5 = "*"
num_cpus = "*"
serde = { version = "*", features = ["derive"] }
serde_json = "*"
sqlx = { version = "*", default-features = false, features = ["sqlite", "runtime-tokio"] }
tokio = { version = "*", features = ["rt-multi-thread", "macros", "fs", "io-util", "sync"] }
