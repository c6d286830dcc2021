[package]
name = "mdreader"
version = "0.1.0"
edition = "2021"
publish = false

[dependencies]
eframe = { version = "*", default-features = false, features = ["default_fonts", "glow", "persistence", "x11", "wayland"] }
egui = "*"
egui_commonmark = "*"
egui_extras = "*"
notify = "*"
rfd = "*"
serde = { version = "*", features = ["derive"] }
