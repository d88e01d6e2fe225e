[package]
name = "hocus_focus"
version = "0.1.0"
edition = "2021"
publish = false

[dependencies]
chrono = "0.4"
clap = { version = "4", features = ["derive"] }
ctrlc = "3"
dirs = "5"
serde = { version = "1", features = ["derive"] }
toml = "0.8"
