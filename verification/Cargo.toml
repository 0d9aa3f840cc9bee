[package]
name = "touchpaint"
version = "0.1.0"
edition = "2021"
publish = false

[dependencies]
clap = { version = "*", features = ["derive"] }
display-info = "*"
eframe = { version = "*", default-features = false, features = ["glow", "x11"] }
egui_extras = { version = "*", default-features = false }
env_logger = { version = "*", default-features = false }
evdev = "*"
image = { version = "*", default-features = false, features = ["png"] }
log = "*"
reqwest = { version = "*", default-features = false, features = ["blocking", "multipart"] }
tiny-skia = "*"
