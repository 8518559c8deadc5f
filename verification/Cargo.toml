[package]
name = "auth_guard"
version = "0.1.0"
edition = "2021"
publish = false

[dependencies]
axum = { version = "0.8", default-features = false }
image = { version = "0.25", default-features = false, features = ["jpeg"] }
tracing = "0.1"
