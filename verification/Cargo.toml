[package]
name = "teco"
version = "0.1.0"
edition = "2021"
publish = false

[dependencies]
bat = { version = "*", default-features = false, features = ["regex-fancy"] }
clap = { version = "*", features = ["derive"] }
colored = "*"
indicatif = "*"
