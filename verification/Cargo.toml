[package]
name = "cloudscraper_rs"
version = "0.2.0"
edition = "2021"
publish = false

[dependencies]
async-trait = "=0.1.92"
headless_chrome = "=1.0.22"
once_cell = "=1.21.4"
rand = "=0.8.8"
regex = "=1.13.1"
serde = { version = "=1.0.229", features = ["derive"] }
serde_json = "=1.0.154"
thiserror = "=1.0.69"
tokio = { version = "=1.54.1", features = ["rt"] }
url = "=2.5.8"
