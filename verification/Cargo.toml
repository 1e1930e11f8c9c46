[package]
name = "layomol"
version = "0.1.0"
edition = "2021"
publish = false

[dependencies]
glam = { version = "*", features = ["bytemuck"] }
bytemuck = "*"
serde = { version = "*", features = ["derive"] }
serde_json = "*"
