[package]
name = "zhang"
version = "0.1.0"
edition = "2021"
publish = false

[dependencies]
chrono = "=0.4.45"
snailquote = "=0.3.1"
unicode_categories = "=0.1.1"
clap = { version = "3", features = ["derive"] }
csv = "1"
serde = { version = "1", features = ["derive"] }
toml = "0.5"
