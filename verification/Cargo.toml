[package]
name = "json_carver"
version = "0.1.0"
edition = "2021"
publish = false

[dependencies]
memchr = "*"
clap = { version = "*", features = ["derive"] }
thiserror = "*"
