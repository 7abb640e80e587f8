[package]
name = "warc_indexer"
version = "0.1.0"
edition = "2021"
publish = false

[dependencies]
docopt = "*"
entrez-rs = "*"
flate2 = "*"
serde = { version = "*", features = ["derive"] }
serde-xml-rs = "*"
tantivy = "*"
