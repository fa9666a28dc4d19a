[package]
name = "news_digest"
version = "0.1.0"
edition = "2021"
publish = false

[dependencies]
regex = "=1.13.1"
url = "=2.5.8"
chrono = "=0.4.45"
serde = { version = "=1.0.229", features = ["derive"] }
serde_json = "=1.0.151"
rss = "=2.1.2"
reqwest = { version = "=0.12.28", default-features = false, features = ["json"] }
tokio = { version = "=1.53.2", features = ["rt-multi-thread", "macros"] }
lettre = { version = "=0.11.23", default-features = false, features = ["smtp-transport", "builder"] }
argparse = "=0.2.2"
