[package]
name = "tablestore"
version = "0.1.0"
edition = "2021"
publish = false

[dependencies]
prost = { version = "0.12", default-features = false, features = ["std"] }

[dev-dependencies]
nom = "7"
