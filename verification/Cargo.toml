[package]
name = "sand"
version = "0.1.0"
edition = "2021"
publish = false

[dependencies]
array2d = "0.2"
rand = "0.8"
macroquad = { version = "0.3", default-features = false }
egui-macroquad = "0.15"
