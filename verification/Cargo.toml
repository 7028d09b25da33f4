[package]
name = "retained"
version = "0.1.0"
edition = "2021"
publish = false

[dependencies]
bevy_ecs = { version = "=0.20.1", default-features = false, features = ["std", "bevy_reflect"] }
bevy_math = "=0.20.1"
bevy_transform = "=0.20.1"
bevy_camera = "=0.20.1"
bevy_reflect = "=0.20.1"
bevy_sprite = { version = "=0.20.1", default-features = false }
taffy = "=0.10.1"
thiserror = "=2.0.21"
