[package]
name = "phosphor"
version = "0.1.0"
edition = "2021"
publish = false

[dependencies]
bincode = "=1.3.3"
env_logger = "=0.11.11"
gl = "=0.14.0"
glam = { version = "=0.34.1", features = ["serde"] }
glfw = "=0.63.0"
image = { version = "=0.25.10", default-features = false, features = ["png", "jpeg"] }
log = "=0.4.34"
obj-rs = "=0.7.4"
rand = "=0.9.5"
serde = { version = "=1.0.229", features = ["derive"] }
