[package]
name = "xdg_desktop_portal_froggy"
version = "0.1.0"
edition = "2021"
publish = false

[dependencies]
dirs = "*"
ron = "*"
serde = { version = "*", features = ["derive"] }
zbus = "*"
egui-file-dialog = "*"
egui-sf2g = "*"
