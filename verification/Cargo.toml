[package]
name = "mdf4_rs"
version = "0.1.0"
edition = "2021"
publish = false

[dependencies]
dbc-rs = "*"
embedded-can = "0.4"
serde = { version = "1", features = ["derive"] }
serde_json = "1"
