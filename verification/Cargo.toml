[package]
name = "config_splitter"
version = "0.1.0"
edition = "2021"
publish = false

[dependencies]
anyhow = "1"
clap = { version = "4", features = ["derive"] }
serde = { version = "1", features = ["derive"] }
serde_yaml = "0.9"
wayland-client = "*"
wayland-protocols-hyprland = { version = "*", features = ["client"] }
