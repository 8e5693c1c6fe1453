[package]
name = "meshbool"
version = "0.1.0"
edition = "2021"
publish = false

[dependencies]
nalgebra = "0.33"
bevy_mesh = { version = "0.15", default-features = false }
bevy_asset = { version = "0.15", default-features = false }
anyhow = "1"
log = "0.4"
