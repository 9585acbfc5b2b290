[package]
name = "sciink"
version = "0.1.0"
edition = "2021"
publish = false

[dependencies]
quick-xml = "*"
clap = { version = "4", features = ["derive", "env"] }
