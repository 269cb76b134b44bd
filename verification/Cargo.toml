[package]
name = "what_stream"
version = "0.1.0"
edition = "2021"
publish = false

[dependencies]
chrono = "0.4"
ureq = { version = "2", features = ["json"] }
serde = { version = "1", features = ["derive"] }
serde_json = "1"
anyhow = "1"
pico-args = "0.5"
toml = "0.8"
dirs = "5"
terminal_size = "0.4"
unicode-segmentation = "1"
unicode-width = "0.2"
