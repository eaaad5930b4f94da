[package]
name = "menu_surfaces"
version = "0.1.0"
edition = "2021"
publish = false

[dependencies]
smithay-client-toolkit = { version = "0.19", default-features = false }
wayland-client = "0.31"
