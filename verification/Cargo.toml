[package]
name = "turbine_broadcast"
version = "0.1.0"
edition = "2021"
publish = false

[dependencies]
rand = "0.8"
rand_chacha = "0.3"
sha2 = "0.10"
lru = "0.12"
reed-solomon-erasure = "6"
crossbeam-channel = "0.5"
thiserror = "1"
histogram = "0.6"
chrono = "0.4"
console = "0.15"
indicatif = "0.17"
