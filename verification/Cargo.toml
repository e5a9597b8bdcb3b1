[package]
name = "lodestone"
version = "0.1.0"
edition = "2021"
publish = false

[dependencies]
anyhow = "1"
chrono = "0.4"
cosmic-text = "*"
dirs = "*"
egui = "*"
log = "0.4"
serde = { version = "1", features = ["derive"] }
toml = "*"
winit = "*"

[dev-dependencies]
tempfile = "3"
