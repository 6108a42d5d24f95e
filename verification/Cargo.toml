[package]
name = "pdf_flatten"
version = "0.1.0"
edition = "2021"
publish = false

[dependencies]
lopdf = "0.34"
eframe = { version = "0.29", default-features = false, features = ["glow", "default_fonts", "x11"] }
egui = "0.29"
rfd = { version = "0.15", default-features = false, features = ["xdg-portal", "tokio"] }
open = "5"
sys-locale = "0.3"
