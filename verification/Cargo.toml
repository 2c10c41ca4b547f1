[package]
name = "dbmorph"
version = "0.1.0"
edition = "2021"
publish = false

[dependencies]
chardetng = "=1.0.0"
encoding_rs = "=0.8.44"
encoding_rs_io = "=0.1.8"
anyhow = "=1.0.104"
clap = { version = "=4.6.7", features = ["derive"] }
colored = "=3.1.1"
csv = "=1.4.0"
tabled = "=0.22.0"
tracing = "=0.1.44"
tracing-subscriber = "=0.3.23"
tokio = { version = "=1.54.1", features = ["rt", "rt-multi-thread", "macros"] }
futures = "=0.3.34"
sqlx = { version = "=0.8.6", default-features = false, features = ["sqlite", "runtime-tokio"] }
serde_json = { version = "=1.0.154", features = ["preserve_order"] }
arrow = { version = "=60.1.0", default-features = false }
parquet = { version = "=60.1.0", default-features = false, features = ["arrow", "snap", "brotli", "flate2-rust_backend", "lz4", "zstd"] }
