[package]
name = "urlcheck"
version = "0.1.0"
edition = "2021"
publish = false

[dependencies]
md5 = "*"
url = "*"
chrono = "*"
reqwest = { version = "*", default-features = false }
tokio = { version = "*", features = ["rt-multi-thread", "macros", "sync"] }
serde = { version = "*", features = ["derive"] }
serde_json = "*"
clap = { version = "*", features = ["derive"] }

[dev-dependencies]
base64 = "*"
