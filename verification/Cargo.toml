[package]
name = "music_turtles"
version = "0.1.0"
edition = "2021"
publish = false

[dependencies]
rand = "0.8"
rodio = "0.17"
midir = "0.9"
midly = "0.5"
