[package]
name = "sigma"
version = "0.1.0"
edition = "2021"
publish = false

[dependencies]
num = { version = "=0.2.1", features = ["rand", "serde"] }
num-primes = "=0.3.0"
rand = "=0.5.6"
serde = { version = "1", features = ["derive"] }
serde_json = "1"
