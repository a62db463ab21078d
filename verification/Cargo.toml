[package]
name = "snek"
version = "0.1.0"
edition = "2021"
publish = false

[dependencies]
rand = "=0.8.8"
serde = { version = "=1.0.229", features = ["derive"] }
lazy_static = "=1.5.1"
rocket = { version = "0.5", features = ["json"] }

[dev-dependencies]
serde_json = "=1.0.154"
