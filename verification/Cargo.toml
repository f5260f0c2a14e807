[package]
name = "teac"
version = "0.1.0"
edition = "2021"
publish = false

[dependencies]
indexmap = "2"
anyhow = "1"
thiserror = "2"
clap = { version = "4", features = ["derive"] }
