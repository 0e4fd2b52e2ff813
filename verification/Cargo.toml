[package]
name = "neat_ctrnn"
version = "0.1.0"
edition = "2021"
publish = false

[dependencies]
rand = "0.9"
rand_distr = "0.5"
serde = { version = "1", features = ["derive"] }
serde_json = "1"
rulinalg = "0.4"
rustc_apfloat = "*"
fxhash = "0.2"
