[package]
name = "it"
version = "0.1.0"
edition = "2021"
publish = false

[dependencies]
sha1 = "0.10"
flate2 = "1"
hex = "0.4"
colored = "2"
clap = { version = "4", features = ["derive"] }
