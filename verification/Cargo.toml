[package]
name = "circle_maze"
version = "0.1.0"
edition = "2021"
publish = false

[dependencies]
clap = { version = "4", features = ["derive"] }
getrandom = "0.3"
rand = { version = "0.9", features = ["small_rng"] }
serde_json = "1"
