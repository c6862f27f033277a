[package]
name = "boimp"
version = "0.4.0"
edition = "2021"
publish = false

[dependencies]
anyhow = "=1.0.104"
async-channel = "=2.5.0"
bevy = { version = "=0.18.1", default-features = false, features = ["bevy_asset", "bevy_render", "bevy_core_pipeline", "bevy_pbr", "bevy_image", "bevy_mesh", "bevy_camera", "bevy_shader", "bevy_log", "multi_threaded", "std"] }
crossbeam-channel = "=0.5.17"
image = { version = "=0.25.10", default-features = false, features = ["png"] }
serde = { version = "1", features = ["derive"] }
wgpu = { version = "=27.0.1", default-features = false, features = ["wgsl"] }
zip = { version = "=2.6.1", default-features = false, features = ["deflate"] }
