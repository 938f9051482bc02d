[package]
name = "nave"
version = "0.1.0"
edition = "2021"
publish = false

[dependencies]
globset = "=0.4.21"
similar = "=2.7.0"
odis = "=2026.9.1"
bit-set = "=0.8.0"
anyhow = "=1.0.104"
clap = { version = "=4.6.7", features = ["derive"] }
serde = { version = "=1.0.229", features = ["derive"] }
serde_json = "=1.0.154"
serde_norway = "=0.9.42"
toml = "=1.1.8"
time = { version = "=0.3.55", features = ["serde", "formatting", "parsing"] }
tokio = { version = "=1.54.1", features = ["full"] }
futures = "=0.3.34"
reqwest = { version = "=0.12.28", default-features = false, features = ["json", "rustls-tls"] }
jsonschema = { version = "=0.60.2", default-features = false }
dialoguer = "=0.12.0"
indicatif = "=0.18.6"
dirs = "=7.0.0"
figment2 = { version = "=0.11.5", features = ["toml", "env"] }
tracing = "=0.1.44"
tracing-subscriber = { version = "=0.3.23", features = ["env-filter"] }
regex = "=1.13.1"
