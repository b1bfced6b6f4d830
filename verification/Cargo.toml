[package]
name = "rustytree"
version = "0.1.0"
edition = "2021"
publish = false

[dependencies]
humansize = "2"
chrono = "0.4"
jwalk = "0.8"
uzers = "0.12"
crossterm = "0.28"
ratatui = "0.29"
thiserror = "2"
anyhow = "1"
