[package]
name = "libtwc"
version = "0.1.0"
edition = "2021"
publish = false

[dependencies]
anyhow = "*"
bzip2 = "*"
clap = { version = "*", features = ["derive"] }
parking_lot = "*"
rayon = "*"
serde_json = "*"
url = "*"
walkdir = "*"
zalgo = "*"
