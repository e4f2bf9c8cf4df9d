[package]
name = "loom"
version = "0.1.0"
edition = "2021"
publish = false

[dependencies]
data-encoding = "*"
getopts = "*"
rand = "*"
rpassword = "*"
rust-crypto = "*"
serde = { version = "*", features = ["derive"] }
serde_json = "*"
