[package]
name = "acumen"
version = "0.1.0"
edition = "2021"
publish = false

[dependencies]
url = "=2.5.8"
regex = "=1.13.1"
serde = { version = "=1.0.229", features = ["derive"] }
serde_json = "=1.0.154"
toml = "=0.8.23"
chrono = "=0.4.45"
md5 = "0.7"
