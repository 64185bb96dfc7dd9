[package]
name = "many_2_many"
version = "0.1.0"
edition = "2021"
publish = false

[dependencies]
bevy_app = "0.17"
bevy_derive = "0.17"
bevy_ecs = "0.17"
bevy_log = "0.17"
bevy_platform = "0.17"
bevy_ptr = "0.17"
bevy_reflect = { version = "0.17", features = ["smol_str"] }
bevy_utils = "0.17"
bincode = { version = "2", features = ["serde"] }
ron = "*"
serde = { version = "1", features = ["derive"] }
serde_json = "1"
smol_str = { version = "0.2", features = ["serde"] }
