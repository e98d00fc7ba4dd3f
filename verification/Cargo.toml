[package]
name = "mandelbrust"
version = "0.1.0"
edition = "2021"
publish = false

[dependencies]
anyhow = "1"
clap = { version = "4", features = ["derive"] }
confy = "0.5"
image = "0.24"
rayon = "1"
serde = { version = "1", features = ["derive"] }
