[package]
name = "netsim"
version = "0.1.0"
edition = "2021"
publish = false

[dependencies]
eframe = { version = "=0.20.1", default-features = false, features = ["glow"] }
egui = { version = "=0.20.1", default-features = false }
