[package]
name = "osm_history_animation"
version = "0.1.0"
edition = "2021"
publish = false

[dependencies]
clap = "*"
gif = "*"
osmio = "*"
orthoproj = "*"
