[package]
name = "file_chunker"
version = "0.1.0"
edition = "2021"
publish = false

[dependencies]
git2 = "0.19"
log = "0.4"
reqwest = { version = "0.12", features = ["blocking", "json"] }
