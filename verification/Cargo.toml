[package]
name = "bevy_plugin_graph"
version = "0.1.0"
edition = "2021"
publish = false

[dependencies]
bevy_app = "*"
bevy_ecs = "*"
serde = { version = "1", features = ["derive"] }
serde_json = "1"
