[package]
name = "life_board"
version = "0.1.0"
edition = "2021"
publish = false

[dependencies]
noise = { version = "0.7", default-features = false }
rand = "0.8"
sdl2 = "0.35"
