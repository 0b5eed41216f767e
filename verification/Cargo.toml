[package]
name = "snout"
version = "0.1.0"
edition = "2021"
publish = false

[dependencies]
anyhow = "=1.0.104"
blake3 = "=1.8.7"
calamine = "=0.38.0"
directories = "=6.0.0"
docx-rs = "=0.4.22"
fastembed = { version = "=7.5.0", default-features = false, features = ["ort-load-dynamic", "hf-hub-rustls-tls"] }
pdf-extract = "=0.12.1"
serde = { version = "=1.0.229", features = ["derive"] }
serde_json = "=1.0.154"
tantivy = "=0.27.0"
walkdir = "=2.5.0"
