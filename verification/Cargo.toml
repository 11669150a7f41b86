[package]
name = "res"
version = "0.0.1"
edition = "2021"
publish = false

[dependencies]
docopt = "1"
serde = { version = "1", features = ["derive"] }
serde_derive = "1"
