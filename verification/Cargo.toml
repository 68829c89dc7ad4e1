[package]
name = "open_location_code"
version = "0.1.0"
edition = "2021"
publish = false

[dependencies]
geo = { version = "*", default-features = false }

[dev-dependencies]
rand = "0.9"
