[package]
name = "esolang"
version = "0.1.0"
edition = "2021"
publish = false

[dependencies]
regex = "1"
libloading = "0.8"
clap = { version = "4", features = ["derive"] }
