[package]
name = "anim_bntx_player"
version = "0.1.0"
edition = "2021"
publish = false

[dependencies]
walkdir = "*"
