[package]
name = "speakify"
version = "0.1.0"
edition = "2021"
publish = false

[dependencies]
frand = "*"
image = "*"
gif = "*"
anyhow = "*"
clap = { version = "*", features = ["derive"] }
rayon = "*"
