[package]
name = "wsts_compute"
version = "0.1.0"
edition = "2021"
publish = false

[dependencies]
num-traits = "=0.2.19"
p256k1 = { version = "=7.1.0", default-features = false }
sha2 = "=0.10.9"
