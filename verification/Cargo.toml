[package]
name = "eventix"
version = "0.1.0"
edition = "2021"
publish = false

[dependencies]
chrono = "=0.4.45"
chrono-tz = "=0.10.4"
regex = "=1.13.1"
toml_edit = "=0.22.27"
anyhow = "=1.0.104"
formatx = "*"
serde = { version = "1", features = ["derive"] }

[dev-dependencies]
tempfile = "=3.27.0"
