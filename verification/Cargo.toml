[package]
name = "pdf_splitter"
version = "0.1.0"
edition = "2021"
publish = false

[dependencies]
anyhow = "1"
clap = { version = "4", default-features = false, features = ["std", "derive", "help", "usage"] }
eframe = { version = "0.31", default-features = false, features = ["default_fonts", "glow", "x11"] }
egui = { version = "0.31", default-features = false, features = ["default_fonts"] }
egui_extras = { version = "0.31", default-features = false }
flate2 = "1"
image = { version = "0.25", default-features = false, features = ["jpeg"] }
indicatif = { version = "0.17", default-features = false }
lopdf = { version = "0.36", default-features = false }
rayon = "1"
rust-i18n = { version = "3", default-features = false }
walkdir = "2"
