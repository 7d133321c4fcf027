[package]
name = "causalflow"
version = "0.1.0"
edition = "2021"
publish = false

[dependencies]
rand = "0.8"
rayon = "1"
ndarray = "0.15"
serde = { version = "1", features = ["derive"] }
serde_json = "1"
thiserror = "1"
