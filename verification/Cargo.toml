[package]
name = "game-of-life"
version = "0.1.0"
edition = "2021"
publish = false

[dependencies]
rand = "0.8"
x11rb = "0.13"
