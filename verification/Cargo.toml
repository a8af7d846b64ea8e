[package]
name = "fanring"
version = "0.3.1"
edition = "2021"
publish = false

[dependencies]
concurrent-queue = "2.5"
plotters = { version = "0.3", default-features = false, features = ["svg_backend"] }
serde = { version = "1", features = ["derive"] }
serde_json = "1"
