[package]
name = "indexer"
version = "0.1.0"
edition = "2021"
publish = false

[dependencies]
stop-words = { version = "=0.10.1", default-features = false, features = ["nltk"] }
lol_html = "=2.9.0"
urlencoding = "=2.1.3"
mongodb = "=3.9.1"
reqwest = { version = "=0.12.28", default-features = false, features = ["rustls-tls"] }
tokio = { version = "=1.54.1", features = ["full"] }
futures = "=0.3.34"
dotenv = "=0.15.0"
serde = { version = "=1.0.229", features = ["derive"] }
serde_json = "=1.0.154"

[dev-dependencies]
human_regex = "=0.3.1"
