[package]
name = "wanderer_tales"
version = "0.1.0"
edition = "2021"
publish = false

[dependencies]
bevy = { version = "0.14", default-features = false, features = ["bevy_state"] }
rand = "0.8"
noise = "0.9"
itertools = "0.13"
