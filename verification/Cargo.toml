[package]
name = "maze_raycast"
version = "0.1.0"
edition = "2021"
publish = false

[dependencies]
minifb = { version = "0.27", default-features = false, features = ["x11"] }
rodio = { version = "0.20", default-features = false, features = ["mp3"] }
gilrs = { version = "0.11", default-features = false }
image = { version = "0.25", default-features = false, features = ["png"] }
