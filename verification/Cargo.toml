[package]
name = "regrate"
version = "0.4.0"
edition = "2021"
publish = false

[dependencies]
sha2 = "0.10"
bs58 = "0.5"
clap = { version = "4", features = ["derive"] }
clap_complete = "4"
eyre = "0.6"
color-eyre = "0.6"
serde = { version = "1", features = ["derive"] }
toml = "0.8"
walkdir = "2"
