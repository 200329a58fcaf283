[package]
name = "bendy_tracer"
version = "0.1.0"
edition = "2021"
publish = false

[dependencies]
anyhow = "1"
bitflags = "1"
clap = { version = "3", features = ["derive"] }
flate2 = "1"
glam = { version = "0.21", features = ["serde"] }
image = { version = "0.24", default-features = false, features = ["png"] }
minifb = { version = "0.23", default-features = false, features = ["x11"] }
rand = { version = "0.8", features = ["small_rng"] }
rand_distr = "0.4"
rayon = "1"
serde = { version = "1", features = ["derive"] }
serde_json = "1"
