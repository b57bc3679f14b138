[package]
name = "passgen"
version = "0.1.0"
edition = "2021"
publish = false

[dependencies]
rand = "0.8"
anyhow = "1"
clap = { version = "3", features = ["derive"] }
clipboard = "0.5"
thiserror = "1"
