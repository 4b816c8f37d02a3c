[package]
name = "entstrip"
version = "0.1.0"
edition = "2021"
publish = false

[dependencies]
plist = "*"
anyhow = "*"
clap = { version = "*", features = ["derive"] }
clap_complete_command = "*"
