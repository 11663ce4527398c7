[package]
name = "credstore"
version = "0.1.0"
edition = "2021"
publish = false

[dependencies]
base64 = "0.22"
rand_core = { version = "0.9", features = ["os_rng"] }
rpassword = "7"
