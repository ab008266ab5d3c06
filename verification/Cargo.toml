[package]
name = "ota_payload"
version = "0.1.0"
edition = "2021"
publish = false

[dependencies]
sha2 = "*"
base64 = "*"
bzip2 = "*"
xz2 = "*"
brotli = "*"
prost = "*"
clap = { version = "*", features = ["derive"] }
anyhow = "*"
