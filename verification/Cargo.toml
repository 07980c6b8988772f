[package]
name = "cplace_map"
version = "0.1.0"
edition = "2021"
publish = false

[dependencies]
image = "*"
reqwest = { version = "*", default-features = false, features = ["blocking"] }
