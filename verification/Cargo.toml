[package]
name = "bevy_kitty"
version = "0.1.0"
edition = "2021"
publish = false

[dependencies]
base64 = "0.22"
crossterm = "*"
image = { version = "0.25", default-features = false, features = ["png"] }
libc = "0.2"
bevy = { version = "0.19", default-features = false, features = ["std", "bevy_asset", "bevy_color", "bevy_image", "bevy_log", "bevy_render", "bevy_sprite", "bevy_text", "bevy_ui", "bevy_window"] }
