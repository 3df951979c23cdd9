[package]
name = "wifi_gui"
version = "0.1.0"
edition = "2021"
publish = false

[dependencies]
serde = { version = "1", features = ["derive"] }
gdk = "0.18"
eframe = { version = "0.29", default-features = false, features = ["glow", "x11", "default_fonts"] }
