[package]
name = "model_checker"
version = "0.1.0"
edition = "2021"
publish = false

[dependencies]
bit-vec = "0.6"
eframe = { version = "0.27", default-features = false, features = ["default_fonts", "glow"] }
egui = { version = "0.27", default-features = false }
egui_extras = { version = "0.27", default-features = false }
env_logger = { version = "0.10", default-features = false }
log = "0.4"
