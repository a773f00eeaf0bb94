[package]
name = "muzak"
version = "0.1.0"
edition = "2021"
publish = false

[dependencies]
rodio = { version = "0.21", default-features = false, features = ["playback", "noise"] }
clap = { version = "4", features = ["derive"] }
dialoguer = "0.11"
musicxml = "*"
wavers = "1"
bytemuck = "1"
