[package]
name = "screen_translator_core"
version = "0.1.0"
edition = "2021"
publish = false

[dependencies]
serde = { version = "1", features = ["derive"] }
serde_json = "1"
ureq = { version = "2", default-features = false, features = ["json"] }
log = "0.4"
anyhow = "1"
crossbeam-channel = "0.5"
