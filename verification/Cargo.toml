[package]
name = "book_parser"
version = "0.1.0"
edition = "2021"
publish = false

[dependencies]
regex = "1"
quick-xml = "*"
scraper = "*"
zip = { version = "*", default-features = false, features = ["deflate"] }
clap = { version = "4", features = ["derive"] }
color-eyre = "*"
dirs = "*"
futures = "*"
indicatif = "*"
reqwest = "*"
serde_json = "*"
tokio = { version = "1", features = ["full"] }
tracing = "*"
