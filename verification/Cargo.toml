[package]
name = "eternal"
version = "0.1.0"
edition = "2021"
publish = false

[dependencies]
anyhow = "1"
async-channel = "2"
async-io = "2"
clap = { version = "4", features = ["derive"] }
crossterm = "*"
futures-lite = "2"
mpris-server = "*"
rand = { version = "0.9", features = ["small_rng"] }
ratatui = "*"
realfft = "3"
rodio = "*"
serde = { version = "1", features = ["derive"] }
serde_json = "1"
symphonia = { version = "0.5", features = ["mp3"] }
thiserror = "2"
