[package]
name = "track"
version = "0.1.0"
edition = "2021"
publish = false

[dependencies]
anyhow = "1"
clap = { version = "4", features = ["derive"] }
dirs = "*"
flate2 = "1"
path-absolutize = "3"
rusqlite = "*"
tar = "0.4"
walkdir = "2"
