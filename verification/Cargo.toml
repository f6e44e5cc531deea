[package]
name = "pipenet"
version = "0.1.0"
edition = "2021"
publish = false

[dependencies]
eframe = { version = "=0.36.2", default-features = false, features = ["default_fonts", "glow", "x11"] }
egui = "=0.36.2"
egui_extras = "=0.36.2"
egui_plot = "=0.37.0"
egui-snarl = { version = "=0.12.0", features = ["serde"] }
serde = { version = "=1.0.229", features = ["derive"] }
serde_json = "=1.0.154"
