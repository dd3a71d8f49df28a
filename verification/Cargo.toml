[package]
name = "esgueva"
version = "0.1.0"
edition = "2021"
publish = false

[dependencies]
uuid = { version = "=1.29.0", features = ["v1", "rng"] }

[dev-dependencies]
nom = "=7.1.3"
