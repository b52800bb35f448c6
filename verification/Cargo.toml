[package]
name = "vissort"
version = "0.1.0"
edition = "2021"
publish = false

[dependencies]
rand = "=0.9.5"
eframe = { version = "0.32", default-features = false, features = ["glow", "default_fonts", "x11"] }
