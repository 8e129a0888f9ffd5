[package]
name = "constructor_assets"
version = "0.1.0"
edition = "2021"
publish = false

[dependencies]
byteorder = "1"
image = { version = "0.25", default-features = false, features = ["png"] }
clap = "2"

[dev-dependencies]
nom = "3"
buffer = "0.1"
