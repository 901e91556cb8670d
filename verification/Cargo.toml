[package]
name = "storm_radar"
version = "0.1.0"
edition = "2021"
publish = false

[dependencies]
image = "0.23"
imageproc = "0.22"
rusttype = "0.9"
chrono = "0.4"
reqwest = { version = "0.11", default-features = false, features = ["blocking"] }
