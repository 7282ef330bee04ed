[package]
name = "wallbash"
version = "0.1.0"
edition = "2021"
publish = false

[dependencies]
ash = "0.38"
image = { version = "0.25", default-features = false, features = ["png", "jpeg", "gif", "bmp", "webp"] }
wayland-backend = { version = "0.3", features = ["client_system", "dlopen"] }
wayland-client = "0.31"
wayland-protocols-wlr = { version = "0.3", features = ["client"] }
