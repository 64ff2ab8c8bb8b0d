[package]
name = "srs_benchmark"
version = "0.1.0"
edition = "2021"
publish = false

[dependencies]
arrow = "=60.1.0"
candle-core = "=0.11.1"
candle-nn = "=0.11.1"
clap = { version = "=4.6.7", features = ["derive"] }
fsrs = "=6.6.2"
kodama = "=0.3.0"
parquet = "=60.1.0"
rayon = "=1.12.0"
serde = { version = "=1.0.229", features = ["derive"] }
serde_json = { version = "=1.0.154", features = ["preserve_order"] }
wide = "=1.7.1"
