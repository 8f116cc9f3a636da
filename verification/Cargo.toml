[package]
name = "nice_orm"
version = "0.1.0"
edition = "2021"
publish = false

[dependencies]
anyhow = "*"
async-trait = "*"
base64 = "=0.23.1"
chrono = "=0.4.45"
clap = { version = "*", features = ["derive"] }
deadpool-redis = { version = "=0.23.1", features = ["script"] }
dotenv = "*"
env_logger = "*"
flate2 = "=1.1.10"
sqlx = { version = "=0.7.4", default-features = false, features = ["runtime-tokio-rustls", "postgres", "migrate"] }
tokio = { version = "*", features = ["rt-multi-thread", "macros", "fs", "sync"] }
