[package]
name = "compounder"
version = "0.1.0"
edition = "2021"
publish = false

[dependencies]
chrono = "0.4.45"
serde = { version = "1", features = ["derive"] }
eframe = { version = "0.37.0", default-features = false, features = ["persistence", "glow", "x11", "default_fonts"] }
