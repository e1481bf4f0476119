[package]
name = "tactics"
version = "0.1.0"
edition = "2021"
publish = false

[dependencies]
godot = "0.1"
num-integer = "0.1"
num-rational = { version = "0.4", default-features = false }
