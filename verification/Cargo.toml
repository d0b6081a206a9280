[package]
name = "markdown_viewer"
version = "0.1.0"
edition = "2021"
publish = false

[dependencies]
semver = "1"
walkdir = "2"
notify = "*"
serde = { version = "1", features = ["derive"] }
