[package]
name = "redox_race"
version = "0.1.0"
edition = "2021"
publish = false

[dependencies]
bevy = { version = "=0.19.0", default-features = false, features = ["std", "bevy_state", "bevy_log", "keyboard", "3d_api", "ui_api"] }
