[package]
name = "data_generation"
version = "0.1.0"
edition = "2021"
publish = false

[dependencies]
clap = { version = "4", features = ["derive"] }
polars = { version = "0.46", default-features = false, features = ["lazy", "csv", "strings", "dtype-struct", "streaming", "cross_join", "fmt"] }
