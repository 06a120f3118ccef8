[package]
name = "gping"
version = "1.20.1"
edition = "2021"
publish = false

[dependencies]
anyhow = "1"
chrono = "0.4"
clap = { version = "4", features = ["derive"] }
clap-cargo = "*"
clap_mangen = "0.2"
idna = "1"
itertools = "0.14"
pinger = "2"
ratatui = { version = "0.29", default-features = false, features = ["crossterm"] }
