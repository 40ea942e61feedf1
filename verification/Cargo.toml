[package]
name = "amitex_gui"
version = "0.1.0"
edition = "2021"
publish = false

[dependencies]
anyhow = "1"
chrono = "0.4"
directories = "*"
eframe = { version = "*", default-features = false, features = ["default_fonts", "glow", "persistence", "wayland", "x11"] }
glam = "*"
rfd = "*"
serde = { version = "1", features = ["derive"] }
