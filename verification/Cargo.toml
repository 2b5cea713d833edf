[package]
name = "ariadne"
version = "0.1.0"
edition = "2021"
publish = false

[dependencies]
rand = "0.8"
serde = { version = "1", features = ["derive"] }
serde_json = "1"
clap = { version = "3", features = ["derive"] }
rustyline = "10"
crossterm = "0.25"
colored = "2"
