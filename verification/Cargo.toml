[package]
name = "vtebench"
version = "0.3.1"
edition = "2021"
publish = false

[dependencies]
clap = { version = "3", features = ["derive"] }
failure = "0.1"
rand = "0.7"
terminfo = "0.7"
walkdir = "2"
