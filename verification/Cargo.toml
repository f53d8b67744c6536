[package]
name = "circuit_synth"
version = "0.1.0"
edition = "2021"
publish = false

[dependencies]
ark-bls12-381 = "0.3"
ark-ec = "0.3"
ark-ff = "0.3"
ark-serialize = "0.3"
bincode = "2"
clap = { version = "4", features = ["derive"] }
ff = "0.12"
group = "0.12"
halo2_proofs = "0.2"
num-bigint = "0.4"
num-traits = "0.2"
rand_core = { version = "0.6", features = ["getrandom"] }
