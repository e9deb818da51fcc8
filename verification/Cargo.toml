[package]
name = "chordsheet"
version = "0.1.0"
edition = "2021"
publish = false

[dependencies]
anyhow = "*"
docx = "*"
html-escape = "*"
reqwest = { version = "*", default-features = false }
scraper = "*"
serde = { version = "*", features = ["derive"] }
serde_json = "*"
tokio = { version = "*", features = ["rt", "macros"] }
