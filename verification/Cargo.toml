[package]
name = "tile3d"
version = "0.1.0"
edition = "2021"
publish = false

[dependencies]
anyhow = "1"
clap = { version = "4", features = ["derive"] }
image = "0.25"
meshopt = "*"
serde_json = "1"
ufbx = "*"
