[package]
name = "midi_player"
version = "0.1.0"
edition = "2021"
publish = false

[dependencies]
clap = { version = "*", features = ["derive"] }
alsa = "*"
midi-toolkit-rs = "*"
