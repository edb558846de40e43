[package]
name = "sanemark"
version = "0.1.0"
edition = "2021"
publish = false

[dependencies]
markdown = { version = "1", features = ["serde"] }
nucleo-matcher = "*"
percent-encoding = "2"
chrono = "0.4"
ropey = "1"
serde = { version = "1", features = ["derive"] }
serde_json = "1"
jsonc-parser = { version = "*", features = ["serde"] }
ignore = "*"
globset = "*"
tower-lsp-server = "*"
tokio = { version = "1", features = ["full"] }
dashmap = "*"

[dev-dependencies]
tempfile = "3"
