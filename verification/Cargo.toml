[package]
name = "luna"
version = "0.1.0"
edition = "2021"
publish = false

[dependencies]
anyhow = "=1.0.104"
arboard = "=3.7.0"
cosmic-text = "0.12"
env_logger = "=0.11.11"
glam = "=0.27.0"
log = "=0.4.34"
winit = "=0.29.15"
