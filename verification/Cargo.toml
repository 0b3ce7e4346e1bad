[package]
name = "ascheme"
version = "0.1.0"
edition = "2021"
publish = false

[dependencies]
colored = "2"
ctrlc = "3"
rustyline = { version = "*", features = ["derive"] }
clap = { version = "4", features = ["derive"] }
