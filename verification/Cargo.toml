[package]
name = "marklens"
version = "0.1.0"
edition = "2021"
publish = false

[dependencies]
comrak = { version = "*", default-features = false }
regex = "*"
serde_json = "*"
serde_yaml = "*"
toml = "*"
quick-xml = "*"
clap = { version = "*", features = ["derive"] }
