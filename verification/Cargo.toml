[package]
name = "egui_workbench"
version = "0.1.0"
edition = "2021"
publish = false

[dependencies]
egui = { version = "=0.37.0", features = ["default_fonts"] }
egui_tiles = "=0.18.0"
serde = { version = "=1.0.229", features = ["derive"] }
serde_json = "=1.0.154"
thiserror = "=2.0.21"

[dev-dependencies]
egui_kittest = "=0.37.0"
