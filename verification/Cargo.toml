[package]
name = "transform_graph"
version = "0.1.0"
edition = "2021"
publish = false

[dependencies]
glam = "*"
uuid = { version = "*", features = ["v4"] }
bytemuck = "*"
raylib = "*"
