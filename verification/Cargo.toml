[package]
name = "pathtracer"
version = "0.1.0"
edition = "2021"
publish = false

[dependencies]
anyhow = "1"
enum_dispatch = "*"
glam = "*"
image = { version = "*", default-features = false, features = ["png"] }
itertools = "*"
rand = "*"
rand_distr = "*"
rand_xoshiro = "*"
rayon = "1"
serde = { version = "1", features = ["derive"] }
smallvec = "1"
toml = "*"
