[package]
name = "cfg_route"
version = "0.1.0"
edition = "2021"
publish = false

[dependencies]
petgraph = "=0.8.3"
egui = "=0.31.1"
eframe = { version = "=0.31.1", default-features = false, features = ["glow", "default_fonts", "x11"] }
rust-sugiyama = "=0.4.0"
thiserror = "=2.0.21"
