[package]
name = "creep_core"
version = "0.1.0"
edition = "2021"
publish = false

[dependencies]
arrayvec = "*"
rand = "*"
bevy = { version = "*", default-features = false }
