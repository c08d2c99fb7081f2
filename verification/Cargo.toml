[package]
name = "am_scene"
version = "0.1.0"
edition = "2021"
publish = false

[dependencies]
serde = { version = "1", features = ["derive"] }
serde_json = "1"
owo-colors = "4"
web-sys = { version = "0.3", features = ["console"] }
