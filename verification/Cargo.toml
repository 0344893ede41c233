[package]
name = "pfr"
version = "0.1.0"
edition = "2021"
publish = false

[dependencies]
ark-ec = "0.3"
ark-ff = "0.3"
ark-poly = "0.3"
ark-poly-commit = "0.3"
ark-marlin = "0.3"
ark-std = "0.3"
ark-bls12-381 = "0.3"
blake2 = "0.9"
rand_chacha = "0.3"
