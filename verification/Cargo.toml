[package]
name = "sum3_solver"
version = "0.1.0"
edition = "2021"
publish = false

[dependencies]
crossbeam-channel = "0.5"
csv = "1"
eframe = { version = "0.31", default-features = false, features = ["glow", "default_fonts", "x11"] }
lru = "0.12"
once_cell = "1"
rayon = "1"
rfd = "0.15"
