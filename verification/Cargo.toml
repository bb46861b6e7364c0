[package]
name = "raggy"
version = "0.1.0"
edition = "2021"
publish = false

[dependencies]
anyhow = "1"
axum = { version = "0.8", features = ["multipart"] }
bincode = "1"
chrono = "0.4"
clap = { version = "4", features = ["derive"] }
colored = "2"
csv = "1"
ctrlc = "3"
dirs = "5"
ignore = "0.4"
indicatif = "0.17"
instant-distance = "0.6"
notify = "6"
notify-debouncer-mini = "0.4"
ort = "2.0.0-rc.9"
pdf-extract = "0.7"
pulldown-cmark = "0.12"
regex = "1"
reqwest = { version = "0.12", default-features = false, features = ["blocking"] }
rusqlite = { version = "0.32", features = ["bundled"] }
serde = { version = "1", features = ["derive"] }
serde_json = "1"
serde_yaml = "0.9"
sha2 = "0.10"
tantivy = "0.22"
tokenizers = "0.20"
tokio = { version = "1", features = ["full"] }
toml = "0.8"
tower-http = { version = "0.6", features = ["cors"] }
