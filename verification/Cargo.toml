[package]
name = "diff_lsp"
version = "0.1.0"
edition = "2021"
publish = false

[dependencies]
url = "*"
tower-lsp = "*"
tokio = { version = "*", features = ["full"] }
serde = { version = "*", features = ["derive"] }
serde_json = "*"
anyhow = "*"
log = "*"
chrono = "*"
expanduser = "*"
