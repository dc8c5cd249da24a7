[package]
name = "poker"
version = "0.1.0"
edition = "2021"
publish = false

[dependencies]
eframe = { version = "0.37", default-features = false, features = ["default_fonts", "glow", "x11"] }
egui = "0.37"
rand = "0.9"
rayon = "1"
