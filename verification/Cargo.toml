[package]
name = "mcj"
version = "0.1.0"
edition = "2021"
publish = false

[dependencies]
anyhow = "*"
base64 = "*"
byteorder = "*"
clap = { version = "*", features = ["derive"] }
dirs = "*"
fastnbt = "*"
flate2 = "*"
rayon = "*"
serde = { version = "*", features = ["derive"] }
serde_json = "*"
toml = "*"
