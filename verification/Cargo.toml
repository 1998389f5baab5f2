[package]
name = "product_archiver"
version = "0.1.0"
edition = "2021"
publish = false

[dependencies]
anyhow = "*"
chrono = "*"
reqwest = { version = "*", default-features = false, features = ["blocking"] }
scraper = "*"

[dev-dependencies]
serde_json = "*"
