[package]
name = "generations3d"
version = "0.1.0"
edition = "2021"
publish = false

[dependencies]
bevy = { version = "=0.12.1", default-features = false, features = ["multi-threaded"] }
noise = { version = "=0.8.2", default-features = false }
