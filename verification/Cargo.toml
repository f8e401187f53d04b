[package]
name = "detile"
version = "0.1.0"
edition = "2021"
publish = false

[dependencies]
color_quant = "1"
image = { version = "0.25", default-features = false, features = ["png", "jpeg"] }
anyhow = "1"
clap = { version = "4", features = ["derive"] }
serde = { version = "1", features = ["derive"] }
serde_json = "1"
rayon = "1"
