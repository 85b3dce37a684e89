[package]
name = "ascii_sdf"
version = "0.1.0"
edition = "2021"
publish = false

[dependencies]
glam = "*"
crossterm = "*"
