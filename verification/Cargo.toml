[package]
name = "mastermind"
version = "0.1.0"
edition = "2021"
publish = false

[dependencies]
rand = "0.9"
rayon = "1"
text_io = "0.1"
clap = { version = "4", features = ["derive"] }
chrono = "0.4"
simplelog = "0.12"
log = "0.4"
