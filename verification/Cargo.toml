[package]
name = "storytime_launcher"
version = "0.1.0"
edition = "2021"
publish = false

[dependencies]
console = "0.15"
dirs = "5"
git2 = "0.19"
indicatif = "0.17"
inquire = "0.7"
reqwest = { version = "0.12", features = ["blocking", "json"] }
serde = { version = "1", features = ["derive"] }
serde_json = "1"
tokio = { version = "1", features = ["rt-multi-thread"] }
toml = "0.8"
whoami = "1"
