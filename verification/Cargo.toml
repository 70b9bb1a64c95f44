[package]
name = "rss_ai"
version = "0.4.0"
edition = "2021"
publish = false

[dependencies]
anyhow = "=1.0.104"
chrono = { version = "0.4", default-features = false, features = ["std"] }
clap = { version = "4", default-features = false, features = ["std", "derive", "help", "usage", "error-context"] }
feed-rs = "2.3"
serde = { version = "1", features = ["derive"] }
serde_json = "1"
sha2 = "0.10"
thiserror = "1"
toml = "0.8"
url = "2"
