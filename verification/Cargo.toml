[package]
name = "kline_feed"
version = "0.1.0"
edition = "2021"
publish = false

[dependencies]
anyhow = "*"
async-trait = "*"
chrono = "*"
clickhouse = "*"
clickhouse-derive = "*"
dotenv = "*"
env_logger = "*"
log = "*"
once_cell = "*"
rand = "*"
reqwest = { version = "*", default-features = false }
serde = { version = "*", features = ["derive"] }
serde_json = "*"
serde_yaml = "*"
sqlx = { version = "*", default-features = false, features = ["runtime-tokio", "postgres", "chrono"] }
tokio = { version = "*", features = ["macros", "rt-multi-thread", "signal", "time", "sync", "fs"] }
