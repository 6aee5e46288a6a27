[package]
name = "led_circuit"
version = "0.1.0"
edition = "2021"
publish = false

[dependencies]
chrono = "=0.4.45"
csv = "=1.4.0"
eframe = { version = "0.23", default-features = false, features = ["default_fonts", "glow"] }
