[package]
name = "autoeq2camilladsp"
version = "0.1.0"
edition = "2021"
publish = false

[dependencies]
anyhow = "*"
clap = { version = "*", features = ["derive"] }
console = "*"
dialoguer = { version = "*", features = ["fuzzy-select"] }
indicatif = "*"
reqwest = { version = "*", default-features = false, features = ["rustls-tls"] }
scraper = "*"
serde = { version = "*", features = ["derive"] }
serde_json = "*"
serde_yaml = "*"
tokio = { version = "*", features = ["macros", "rt-multi-thread"] }
