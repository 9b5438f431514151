[package]
name = "phosphor"
version = "0.1.0"
edition = "2021"
publish = false

[dependencies]
failure = "=0.1.8"
gl = "=0.14.0"
glam = "=0.34.1"
glfw = "=0.63.0"
image = "=0.25.10"
imgui = "=0.12.0"
log = "=0.4.34"
obj-rs = "*"
rfd = "=0.17.2"
shader-prepper = "=0.2.0"
