[package]
name = "markrs"
version = "1.2.0"
edition = "2021"
publish = false

[dependencies]
unicode-segmentation = "1"
unicode_categories = "0.1"
serde = { version = "1", features = ["derive"] }
toml = "0.8"
toml_edit = { version = "0.22", features = ["serde"] }
clap = { version = "4", features = ["derive"] }
dirs = "5"
log = "0.4"
env_logger = "0.11"
