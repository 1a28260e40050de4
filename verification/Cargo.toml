[package]
name = "barnes_hut"
version = "0.1.0"
edition = "2021"
publish = false

[dependencies]
env_logger = { version = "0.10", default-features = false }
error-iter = "0.4"
glam = "*"
log = "0.4"
rand = "0.8"
winit = { version = "0.29", default-features = false, features = ["x11", "rwh_05"] }
winit_input_helper = "0.15"
