[package]
name = "voxel_engine"
version = "0.1.0"
edition = "2021"
publish = false

[dependencies]
bytemuck = "=1.25.2"
image = { version = "=0.25.10", default-features = false, features = ["png"] }
parking_lot = "=0.12.5"
serde = { version = "=1.0.229", features = ["derive"] }
serde_json = "=1.0.154"
sysinfo = { version = "0.29", default-features = false }
bevy_flycam = "0.18"
bevy = { version = "=0.18.1", default-features = false, features = ["std", "bevy_asset", "bevy_color", "bevy_core_pipeline", "bevy_gizmos", "bevy_gizmos_render", "bevy_image", "bevy_log", "bevy_mesh", "bevy_pbr", "bevy_render", "bevy_shader", "bevy_text", "bevy_ui", "bevy_ui_render", "bevy_window", "bevy_camera", "bevy_light", "default_font", "multi_threaded", "png"] }
