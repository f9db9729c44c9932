[package]
name = "flamingo"
version = "0.1.0"
edition = "2021"
publish = false

[dependencies]
clap = { version = "=4.6.7", features = ["derive"] }
dirs = "=7.0.0"
log = { version = "=0.4.35", features = ["std"] }
nu-ansi-term = "=0.50.3"
rayon = "=1.12.0"
serde = { version = "=1.0.229", features = ["derive"] }
toml = "=1.1.8"

[dev-dependencies]
tempfile = "=3.27.0"
