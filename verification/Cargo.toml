[package]
name = "treedeco"
version = "0.1.0"
edition = "2021"
publish = false

[dependencies]
ansi_term = "*"
glob-match = "*"
clap = { version = "*", features = ["derive"] }
serde = { version = "*", features = ["derive"] }
serde_derive = "*"
serde_json = "*"
crossbeam-channel = "*"
