[package]
name = "planetary_dynamics"
version = "0.1.0"
edition = "2021"
publish = false

[dependencies]
fxhash = "=0.2.1"

[dev-dependencies]
rand = "=0.8.8"
