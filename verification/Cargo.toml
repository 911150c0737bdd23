[package]
name = "rec_rsys"
version = "0.1.0"
edition = "2021"
publish = false

[dependencies]
serde = { version = "1", features = ["derive"] }
async-trait = "0.1"
rayon = "1"
rand = "0.8"
rand_distr = "0.4"
ndarray = "0.15"
