[package]
name = "neon"
version = "0.1.0"
edition = "2021"
publish = false

[dependencies]
clap = { version = "=4.6.7", features = ["derive"] }
colored = "=3.1.1"
serde_json = { version = "=1.0.151", features = ["preserve_order"] }
thiserror = "=2.0.21"
