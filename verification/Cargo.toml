[package]
name = "classic_crypto"
version = "0.1.0"
edition = "2021"
publish = false

[dependencies]
rand = "0.8"
fastrand = "1"
serde = { version = "1", features = ["derive"] }
bincode = "1"
structopt = "0.3"
owo-colors = "3"
