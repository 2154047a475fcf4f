[package]
name = "dagrid"
version = "0.1.0"
edition = "2021"
publish = false

[dependencies]
libm = "*"
bytemuck = "*"

[dev-dependencies]
glicol = "*"
