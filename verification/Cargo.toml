[package]
name = "gleam_project"
version = "0.1.0"
edition = "2021"
publish = false

[dependencies]
petgraph = "0.5"
regex = "1"
serde = { version = "1", features = ["derive"] }
strum = "0.18"
strum_macros = "0.18"
walkdir = "2"
