[package]
name = "kuluu"
version = "0.1.0"
edition = "2021"
publish = false

[dependencies]
anyhow = "1"
bevy = { version = "0.17", default-features = false, features = ["bevy_asset", "bevy_camera", "bevy_color", "bevy_image", "bevy_light", "bevy_mesh", "bevy_picking", "bevy_text", "bevy_ui", "multi_threaded"] }
serde = { version = "1", features = ["derive"] }
serde_json = "1"
tokio = { version = "1", features = ["sync"] }
tracing = "0.1"
