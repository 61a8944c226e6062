[package]
name = "flamer"
version = "0.1.0"
edition = "2021"
publish = false

[dependencies]
ash = "0.37"
shaderc = "0.8"
bytemuck = "1"
