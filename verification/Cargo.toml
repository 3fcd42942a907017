[package]
name = "bm25_cli"
version = "0.1.0"
edition = "2021"
publish = false

[dependencies]
anyhow = "1"
chardetng = "0.1"
clap = { version = "4", features = ["derive"] }
encoding_rs = "0.8"
glob = "0.3"
htmd = "*"
ignore = "0.4"
rayon = "1"
readability = { version = "*", default-features = false }
reqwest = { version = "*", features = ["blocking"] }
serde = { version = "1", features = ["derive"] }
serde_json = "1"
tantivy = "*"
url = "2"

[dev-dependencies]
tempfile = "3"
