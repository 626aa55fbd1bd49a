[package]
name = "poker_odds"
version = "0.1.0"
edition = "2021"
publish = false

[dependencies]
arrayvec = "0.7"
clap = { version = "4", features = ["derive"] }
rand = "0.8"
