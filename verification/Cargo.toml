[package]
name = "jjump"
version = "0.1.0"
edition = "2021"
publish = false

[dependencies]
clap = { version = "*", features = ["derive"] }
eyre = "*"
serde = { version = "*", features = ["derive"] }
serde_yaml = "*"
thiserror = "*"
xdg = "*"
