[package]
name = "book_mirror"
version = "0.1.0"
edition = "2021"
publish = false

[dependencies]
crc32fast = "1"
serde_json = "1"
tokio = { version = "1", features = ["macros", "rt-multi-thread"] }
tokio-tungstenite = "*"
futures-util = "0.3"
url = "2"
