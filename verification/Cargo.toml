[package]
name = "geoguess"
version = "0.1.0"
edition = "2021"
publish = false

[dependencies]
csv = "=1.4.0"
rand = "=0.8.8"
dialoguer = { version = "=0.12.0", features = ["fuzzy-select"] }

[dev-dependencies]
geoutils = "=0.5.1"
