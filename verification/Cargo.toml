[package]
name = "treedoc"
version = "0.1.0"
edition = "2021"
publish = false

[dependencies]
anyhow = "1"
clap = { version = "4", features = ["derive"] }
serde_yaml = "0.9"
ignore = "0.4"
