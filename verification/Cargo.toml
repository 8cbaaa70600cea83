[package]
name = "sc_ui_schema"
version = "0.1.0"
edition = "2021"
publish = false

[dependencies]
clap = { version = "4", features = ["derive"] }
regex = "1"
serde_json = "1"
thiserror = "2"
toml = "0.9"
walkdir = "2"
