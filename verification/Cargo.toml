[package]
name = "rumpy"
version = "0.1.0"
edition = "2021"
publish = false

[dependencies]
rand = "=0.10.3"
rand_distr = "=0.6.0"
faer = { version = "*", default-features = false, features = ["std"] }
