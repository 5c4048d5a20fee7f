[package]
name = "wallpaper_carousel"
version = "0.1.0"
edition = "2021"
publish = false

[dependencies]
image = "*"
tiny-skia = "*"
usvg = "*"
resvg = "*"
fontdb = "*"
rand = "*"
clap = { version = "*", features = ["derive"] }
serde = { version = "*", features = ["derive"] }
serde_json = "*"
libc = "*"
walkdir = "*"
