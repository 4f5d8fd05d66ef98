[package]
name = "accumulator_rsa"
version = "0.1.0"
edition = "2021"
publish = false

[dependencies]
num-bigint = "=0.4.8"
num-integer = "=0.1.47"
num-traits = "0.2"
blake2 = "=0.10.6"
glass_pumpkin = "=1.9.1"
rand_chacha = "=0.3.1"
rand_core = "=0.6.4"
rayon = "=1.12.0"
serde = { version = "1", features = ["derive"] }

[dev-dependencies]
rand = "0.8"
