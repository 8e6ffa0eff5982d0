[package]
name = "mm3u_rs"
version = "0.1.0"
edition = "2021"
publish = false

[dependencies]
strsim = "*"
clap = { version = "*", features = ["derive"] }
