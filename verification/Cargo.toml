[package]
name = "robots_server"
version = "0.1.0"
edition = "2021"
publish = false

[dependencies]
url = "*"
moka = { version = "*", features = ["sync"] }
robotstxt-rs = "*"
reqwest = { version = "*", default-features = false }
tokio = { version = "*", features = ["rt-multi-thread", "macros"] }
