[package]
name = "gf2mul"
version = "0.1.0"
edition = "2021"
publish = false

[dependencies]
aligned-vec = "*"
rand = "0.8"
m4ri-rust = "*"
thiserror = "*"
clap = { version = "*", features = ["derive"] }
serde = { version = "1", features = ["derive"] }
serde_json = "1"
