[package]
name = "hashlab"
version = "0.1.0"
edition = "2021"
publish = false

[dependencies]
rand = "=0.8.8"
hex = "=0.4.3"
chrono = { version = "=0.4.45", default-features = false, features = ["std"] }
indicatif = "=0.16.2"
plotlib = "=0.5.1"
console = { version = "=0.16.6", default-features = false, features = ["std"] }
