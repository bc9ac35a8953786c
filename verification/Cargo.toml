[package]
name = "crafter"
version = "0.1.0"
edition = "2021"
publish = false

[dependencies]
glium = "*"
glutin = "*"
image = "*"
log = "*"
nalgebra = "*"
nalgebra-glm = "*"
rand = "*"
rfd = "*"
serde = { version = "*", features = ["derive"] }
serde_json = "*"
