[package]
name = "world_generation"
version = "0.1.0"
edition = "2021"
publish = false

[dependencies]
bevy = { version = "=0.9.1", default-features = false }
bevy_ecs_tilemap = "=0.9.0"
noise = "=0.8.2"
rand = "=0.8.8"
