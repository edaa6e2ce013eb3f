[package]
name = "rand_triplemix"
version = "0.1.0"
edition = "2021"
publish = false

[dependencies]
rand_core = "*"
bytemuck = "*"
serde = { version = "*", features = ["derive"] }
zeroize = "*"

[dev-dependencies]
rand = "*"
