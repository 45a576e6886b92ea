[package]
name = "hw_monitor"
version = "0.1.0"
edition = "2021"
publish = false

[dependencies]
serde = { version = "1", features = ["derive"] }
serde_json = "1"
tokio = { version = "1", features = ["rt", "rt-multi-thread", "time", "sync", "macros"] }
libc = "0.2"
axum = { version = "0.6", features = ["ws"] }
eframe = { version = "*", default-features = false, features = ["default_fonts", "glow", "x11"] }
image = { version = "*", default-features = false, features = ["png"] }
