[package]
name = "goatland"
version = "0.1.0"
edition = "2021"
publish = false

[dependencies]
noise = "0.8"
bevy_math = "0.8"

[dev-dependencies]
block-mesh = "0.2"
