[package]
name = "playlist_order"
version = "0.1.0"
edition = "2021"
publish = false

[dependencies]
rand = "=0.7.3"
rodio = "0.9"
