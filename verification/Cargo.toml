[package]
name = "stcm2tool"
version = "0.1.0"
edition = "2021"
publish = false

[dependencies]
base64 = "*"
encoding_rs = "*"
indexmap = "*"
clap = { version = "*", features = ["derive"] }
saphyr = "*"
anyhow = "*"
