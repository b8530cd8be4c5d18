[package]
name = "tdv"
version = "0.1.0"
edition = "2021"
publish = false

[dependencies]
anyhow = "1"
clap = { version = "4", features = ["derive"] }
gix = "*"
ignore = "0.4"
notify = "*"
ratatui = "*"
serde = { version = "1", features = ["derive"] }
syntect = "5"
toml = "*"
unicode-width = "*"
