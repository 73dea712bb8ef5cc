[package]
name = "gpg_wrapper"
version = "0.1.0"
edition = "2021"
publish = false

[dependencies]
anyhow = "=1.0.104"
arboard = { version = "=3.7.0", default-features = false, features = ["wayland-data-control"] }
eframe = { version = "=0.36.2", default-features = false, features = ["glow", "default_fonts", "x11", "wayland"] }
rfd = { version = "=0.15.4", default-features = false, features = ["xdg-portal", "tokio"] }
