[package]
name = "kmeans_bounds"
version = "0.1.0"
edition = "2021"
publish = false

[dependencies]
rand = "*"
image = "*"
serde = { version = "*", features = ["derive"] }
