[package]
name = "plutonium_engine"
version = "0.8.0"
edition = "2021"
publish = false

[dependencies]
uuid = "1"
winit = "0.30"

[dev-dependencies]
