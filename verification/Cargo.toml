[package]
name = "vector_addition_chain"
version = "0.1.0"
edition = "2021"
publish = false

[dependencies]
ark-ff = "0.3"
ark-std = "0.3"

[dev-dependencies]
ark-bls12-381 = "0.3"
ark-ed-on-bls12-381 = "0.3"
