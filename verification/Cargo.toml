[package]
name = "game_engine"
version = "0.1.0"
edition = "2021"
publish = false

[dependencies]
glfw = "0.51"
gl33 = "0.2"
image = { version = "0.24", default-features = false, features = ["png"] }
libc = "0.2"
