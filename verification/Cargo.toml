[package]
name = "hot_manager"
version = "0.1.0"
edition = "2021"
publish = false

[dependencies]
clap = { version = "4", features = ["derive"] }
colored = "*"
ctrlc = "*"
glob = "0.3"
notify = "*"
serde = { version = "1", features = ["derive"] }
snafu = "*"
tempfile = "3"
toml = "*"
tracing = "*"
tracing-subscriber = "*"
walkdir = "2"
