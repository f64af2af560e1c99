[package]
name = "squeeze"
version = "0.1.0"
edition = "2021"
publish = false

[dependencies]
clap = { version = "4", features = ["derive"] }

[dev-dependencies]
rand = "0.8"
rand_chacha = "0.3"
