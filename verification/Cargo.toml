[package]
name = "bbtidy"
version = "0.1.0"
edition = "2021"
publish = false

[dependencies]
clap = { version = "4", features = ["derive"] }
globset = "0.4"
libc = "0.2"
logos = "*"
serde = { version = "1", features = ["derive"] }
serde_json = "1"
similar = "2"
toml = "*"
