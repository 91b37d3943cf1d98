[package]
name = "noteapp"
version = "0.1.0"
edition = "2021"
publish = false

[dependencies]
clap = { version = "*", features = ["derive"] }
eframe = { version = "*", default-features = false, features = ["glow", "x11", "default_fonts"] }
egui_demo_lib = "*"
egui_extras = "*"
env_logger = "*"
rand = "*"
rusqlite = { version = "*", features = ["bundled"] }
unindent = "*"
