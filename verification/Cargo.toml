[package]
name = "reposaver"
version = "0.1.0"
edition = "2021"
publish = false

[dependencies]
chrono = "*"
notify = "*"
walkdir = "*"
rust-ini = "*"
