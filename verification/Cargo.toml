[package]
name = "rtracer"
version = "0.1.0"
edition = "2021"
publish = false

[dependencies]
nalgebra = { version = "*", features = ["serde-serialize"] }
image = "*"
rayon = "*"
rand = "*"
rand_distr = "*"
rand_xoshiro = "*"
ron = "*"
serde = { version = "*", features = ["derive"] }
itertools = "*"
ordered-float = "*"
