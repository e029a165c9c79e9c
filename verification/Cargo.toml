[package]
name = "bin-extract"
version = "1.0.0"
edition = "2021"
publish = false

[dependencies]
des = "0.8"
flate2 = "1"
quick-xml = "0.37"
anyhow = "1"
clap = { version = "4", features = ["derive", "env"] }
colored = "2"
humansize = "2"
serde = { version = "1", features = ["derive"] }
serde_json = "1"
