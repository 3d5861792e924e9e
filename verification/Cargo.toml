[package]
name = "oma_sources"
version = "0.1.0"
edition = "2021"
publish = false

[dependencies]
indexmap = { version = "2", features = ["serde"] }
ahash = "0.8"
url = "2"
once_cell = "1"
serde = { version = "1", features = ["derive"] }
serde_json = "1"
snafu = "0.8"
tokio = { version = "1", features = ["fs"] }
oma-apt-sources-lists = "*"
apt-auth-config = "*"
