[package]
name = "tablefmt"
version = "0.1.0"
edition = "2021"
publish = false

[dependencies]
anyhow = "1"
clap = { version = "4", features = ["derive"] }
clap_complete = "4"
csv = "1"
saphyr = "*"
serde_json = "1"
tabled = "*"
toml = "*"
