[package]
name = "behat_lsp"
version = "0.1.0"
edition = "2021"
publish = false

[dependencies]
anyhow = "=1.0.104"
bumpalo = "=3.20.3"
dashmap = "=6.2.1"
mago-database = "=1.5.0"
mago-php-version = "=1.5.0"
mago-syntax = "=1.5.0"
mago-text-edit = "=1.5.0"
notify = "=8.2.1"
serde_json = "=1.0.154"
serde_yaml = "=0.9.34"
tokio = { version = "=1.54.1", features = ["full"] }
tower-lsp = "=0.20.0"
walkdir = "=2.5.0"
