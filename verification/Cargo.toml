[package]
name = "voxircle"
version = "0.1.0"
edition = "2021"
publish = false

[dependencies]
eframe = { version = "0.30", default-features = false, features = ["glow", "x11", "default_fonts"] }
egui = "0.30"
egui_plot = "0.30"
rhai = "1"
itertools = "0.13"
prisma = "0.1"
angular-units = "0.2"
