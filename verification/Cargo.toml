[package]
name = "resume_dock"
version = "0.1.0"
edition = "2021"
publish = false

[dependencies]
egui = "0.27"
egui_dock = "0.12"
egui_extras = "0.27"
