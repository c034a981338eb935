[package]
name = "snowcap"
version = "0.1.0"
edition = "2021"
publish = false

[dependencies]
primal = "0.3"
rand = "0.8"

[dev-dependencies]
rand = "0.8"
