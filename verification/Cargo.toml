[package]
name = "trade_data_processor"
version = "0.1.0"
edition = "2021"
publish = false

[dependencies]
serde_json = "*"
zstd = "*"
flate2 = "*"
md-5 = "*"
sha2 = "*"
sled = "*"
anyhow = "*"
tokio = { version = "*", features = ["rt-multi-thread", "macros", "fs", "net", "io-util", "sync", "time"] }
clap = { version = "*", features = ["derive"] }
serde = { version = "*", features = ["derive"] }
serde_yaml = "*"
chrono = "*"
walkdir = "*"
urlencoding = "*"
axum = "*"
aws-config = "*"
aws-credential-types = "*"
aws-sdk-s3 = "*"
arrow = "*"
parquet = { version = "*", features = ["arrow"] }
futures = "*"
async-trait = "*"
bytes = "*"
reqwest = { version = "*", default-features = false, features = ["json"] }
ssh2 = "*"
