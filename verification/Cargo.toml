[package]
name = "sol"
version = "0.1.0"
edition = "2021"
publish = false

[dependencies]
rustyline = "14"
clap = { version = "4", features = ["derive"] }

[dev-dependencies]
chumsky = "0.10"
