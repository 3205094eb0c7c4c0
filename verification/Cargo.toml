[package]
name = "locale_codes"
version = "0.3.0"
edition = "2021"
publish = false

[dependencies]
lazy_static = "1"
log = "0.4"
serde = { version = "1", features = ["derive"] }
serde_json = "1"
