[package]
name = "gridpath"
version = "0.1.0"
edition = "2021"
publish = false

[dependencies]
pathfinding = "*"
noise = "*"
rand = "*"
serde = { version = "*", features = ["derive"] }
serde_yaml = "*"
walkdir = "*"
image = { version = "*", default-features = false, features = ["png"] }
