[package]
name = "magnetfinder"
version = "1.0.0"
edition = "2021"
publish = false

[dependencies]
scraper = "*"
clap = "2"
comfy-table = "*"
config = "0.11"
directories = "*"
reqwest = { version = "0.11", features = ["blocking", "json"] }
serde = { version = "1", features = ["derive"] }
ureq = "2"
