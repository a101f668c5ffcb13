[package]
name = "pttlogger"
version = "0.1.0"
edition = "2021"
publish = false

[dependencies]
anyhow = "1"
chrono = "0.4"
clap = { version = "4", features = ["derive"] }
confy = "0.5"
crossterm = "0.25"
nom = "7"
serde = { version = "1", features = ["derive"] }
serde_derive = "1"
tui = "0.19"
tui-textarea = "0.2"
