[package]
name = "sifter"
version = "0.2.1"
edition = "2021"
publish = false

[dependencies]
anyhow = "1"
blake3 = "1"
clap = { version = "4", features = ["derive"] }
directories = "*"
globset = "0.4"
ignore = "0.4"
rusqlite = { version = "*", features = ["bundled"] }
serde = { version = "1", features = ["derive"] }
serde_json = "1"
serde_yaml = "0.9"
tantivy = "*"
tree-sitter = "*"
tree-sitter-rust = "*"
