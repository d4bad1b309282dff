[package]
name = "psmux"
version = "0.1.0"
edition = "2021"
publish = false

[dependencies]
vt100 = "*"
serde = { version = "1", features = ["derive"] }
serde_json = "1"
