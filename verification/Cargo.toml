[package]
name = "falcon_zk"
version = "0.1.0"
edition = "2021"
publish = false

[dependencies]
sha3 = "=0.10.9"
rand_chacha = "=0.3.1"
rand_core = "=0.6.4"
ark-ff = "=0.6.0"
ark-relations = "=0.6.0"

[dev-dependencies]
pqcrypto-falcon = "=0.4.1"
pqcrypto-traits = "=0.3.5"
