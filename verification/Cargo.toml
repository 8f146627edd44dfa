[package]
name = "uneven_waves"
version = "0.1.0"
edition = "2021"
publish = false

[dependencies]
serde = { version = "*", features = ["derive"] }
sdl2 = { version = "*", features = ["image"] }
