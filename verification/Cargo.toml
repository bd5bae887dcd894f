[package]
name = "chunkvault"
version = "0.1.0"
edition = "2021"
publish = false

[dependencies]
alphanumeric-sort = "1"
chacha20poly1305 = "0.9"
clap = { version = "3", features = ["derive"] }
dotenv = "0.15"
itertools = "0.10"
rayon = "1"
rust-s3 = "0.32"
serde = { version = "1", features = ["derive"] }
serde_json = "1"
tokio = { version = "1", features = ["macros", "rt-multi-thread"] }
tokio-stream = "0.1"
uuid = { version = "1", features = ["v4"] }
