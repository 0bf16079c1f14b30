[package]
name = "music_browser"
version = "0.1.0"
edition = "2021"
publish = false

[dependencies]
anyhow = "*"
crossterm = "*"
dirs = "*"
rand = "*"
ratatui = "*"
rodio = "*"
