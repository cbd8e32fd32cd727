[package]
name = "rust_project"
version = "0.1.0"
edition = "2021"
publish = false

[dependencies]
rand = "0.9"
noise = "0.9"
ratatui = "0.29"
crossterm = "0.28"
