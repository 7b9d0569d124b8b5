[package]
name = "lintus"
version = "0.3.0"
edition = "2021"
publish = false

[dependencies]
yaml-rust2 = "*"
indexmap = "2"
serde = { version = "1", features = ["derive"] }
serde_json = "1"
ureq = "3"
clap = { version = "4", features = ["derive"] }
rpassword = "7"
