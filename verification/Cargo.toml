[package]
name = "swiftlint_autodetect"
version = "0.1.0"
edition = "2021"
publish = false

[dependencies]
yaml-rust2 = "*"
hashlink = "*"
anyhow = "*"
clap = { version = "*", features = ["derive"] }
serde = { version = "*", features = ["derive"] }
serde_yml = "*"
shellexpand = "*"
toml = "*"
