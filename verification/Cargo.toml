[package]
name = "spotlauncher"
version = "0.1.0"
edition = "2021"
publish = false

[dependencies]
async-channel = "*"
gtk4 = "*"
gtk4-layer-shell = "*"
input_query = "*"
rdev = "*"
