[package]
name = "rusty_lemon"
version = "0.1.0"
edition = "2021"
publish = false

[dependencies]
eframe = { version = "=0.21.3", default-features = false, features = ["default_fonts", "glow", "persistence"] }
egui = { version = "=0.21.0", default-features = false }
native-dialog = "=0.6.4"
serde = { version = "=1.0.229", features = ["derive"] }
