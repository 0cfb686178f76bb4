[package]
name = "texture_kit"
version = "0.1.0"
edition = "2021"

[dependencies]
bevy_asset = { version = "0.10", default-features = false }
bevy_render = { version = "0.10", default-features = false }
