[package]
name = "composer-language-server"
version = "0.2.5"
edition = "2021"
publish = false

[dependencies]
jsonc-parser = "=0.32.4"
serde = { version = "=1.0.229", features = ["derive"] }
serde_json = "=1.0.154"
tokio = { version = "=1.54.1", features = ["io-std", "io-util", "macros", "rt", "sync", "time"] }
tower-lsp-server = "=0.23.0"
ureq = { version = "=3.5.1", features = ["json"] }
url = "=2.5.8"
zed_extension_api = "=0.7.0"
