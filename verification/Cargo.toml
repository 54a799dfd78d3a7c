[package]
name = "simsearch"
version = "0.1.0"
edition = "2021"
publish = false

[dependencies]
strsim = "*"
triple_accel = "*"
serde = { version = "*", features = ["derive"] }
