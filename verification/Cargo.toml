[package]
name = "decksim"
version = "0.1.0"
edition = "2021"
publish = false

[dependencies]
clap = { version = "4", features = ["derive"] }
itertools = "0.10"
json = "0.12"
rand = "0.8"
regex = "1"
reqwest = { version = "0.11", default-features = false, features = ["blocking"] }
