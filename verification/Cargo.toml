[package]
name = "glyphr"
version = "0.1.0"
edition = "2021"
publish = false

[dependencies]
nucleo-matcher = "0.3"
rkyv = "0.8"
serde_json = "1"
anyhow = "1"
clap = { version = "4", features = ["derive"] }
crossterm = "0.28"
ratatui = "0.29"
arboard = { version = "3", default-features = false }
