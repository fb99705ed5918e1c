[package]
name = "wavefront_collapse"
version = "0.1.0"
edition = "2021"
publish = false

[dependencies]
rand = { version = "0.9", features = ["std_rng"] }
