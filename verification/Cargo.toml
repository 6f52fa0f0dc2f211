[package]
name = "tessera"
version = "0.1.0"
edition = "2021"
publish = false

[dependencies]
arbitrary = { version = "1", features = ["derive"] }
crossbeam-queue = "0.3"
crossterm = "0.28"
ratatui = "0.29"
