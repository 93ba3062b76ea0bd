[package]
name = "dist_primitives"
version = "0.1.0"
edition = "2021"
publish = false

[dependencies]
halo2_proofs = "0.3"
halo2curves = "0.7"
ff = "0.13"
group = "0.13"
rand = "0.8"
serde = { version = "1", features = ["derive"] }
serde_json = "1"
bincode = "1"
hex = "0.4"
itertools = "*"

[dev-dependencies]
ark-std = "*"
