[package]
name = "view"
version = "0.1.0"
edition = "2021"
publish = false

[dependencies]
sha2 = "*"
time = { version = "*", features = ["formatting", "parsing"] }
mime_guess = "*"
anyhow = "1"
serde = { version = "1", features = ["derive"] }
serde_json = "1"
clap = { version = "4", features = ["derive", "env"] }
tokio = { version = "1", features = ["full"] }
axum = { version = "*", features = ["multipart"] }
reqwest = { version = "*", default-features = false, features = ["json", "multipart"] }
url = "2"

[dev-dependencies]
hex = "*"
urlencoding = "*"
