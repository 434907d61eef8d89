[package]
name = "rowflow"
version = "0.1.0"
edition = "2021"
publish = false

[dependencies]
csv = "*"
serde = { version = "*", features = ["derive"] }
eyre = "*"
color-eyre = "*"
tracing = "*"
tracing-subscriber = "*"
