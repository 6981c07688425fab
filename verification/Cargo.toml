[package]
name = "eva_motion_control"
version = "0.1.0"
edition = "2021"
publish = false

[dependencies]
bitty = "*"
reqwest = { version = "0.9", default-features = false }
