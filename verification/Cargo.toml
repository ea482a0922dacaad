[package]
name = "trainer"
version = "0.1.0"
edition = "2021"
publish = false

[dependencies]
chrono = { version = "=0.4.41", default-features = false, features = ["std"] }
clap = { version = "4", features = ["derive"] }
dotenvy = "0.15"
fastrand = "=2.5.0"
miette = "7"
polars = { version = "0.53", default-features = false, features = ["lazy", "parquet", "csv", "temporal", "dtype-date", "dtype-array", "dtype-u8", "rolling_window", "partition_by"] }
tracing = "0.1"
tracing-subscriber = { version = "0.3", features = ["env-filter"] }
