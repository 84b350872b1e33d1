[package]
name = "dpcolor"
version = "0.1.0"
edition = "2021"
publish = false

[dependencies]
image = { version = "0.23", default-features = false }
zip = { version = "0.5", default-features = false }
