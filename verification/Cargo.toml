[package]
name = "clarus"
version = "0.2.0"
edition = "2021"
publish = false

[dependencies]
clap = { version = "4", features = ["derive"] }
colored = "2"
serde_json = "1"
