[package]
name = "benilla_liquid"
version = "0.1.0"
edition = "2021"
publish = false

[dependencies]
bevy = { version = "0.18", default-features = false, features = ["std", "bevy_asset", "bevy_core_pipeline", "bevy_log", "bevy_pbr", "bevy_render"] }
bytemuck = "1"
