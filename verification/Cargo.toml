[package]
name = "task_manager"
version = "0.1.0"
edition = "2021"
publish = false

[dependencies]
eframe = { version = "=0.24.1", default-features = false, features = ["default_fonts", "glow", "x11"] }
