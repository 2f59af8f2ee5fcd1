[package]
name = "glance"
version = "0.1.0"
edition = "2021"
publish = false

[dependencies]
image = { version = "=0.25.10", default-features = false, features = ["bmp", "gif", "ico", "jpeg", "png", "pnm", "qoi", "tga", "tiff", "webp"] }
moxcms = { version = "=0.9.1", features = ["in_place"] }
rawler = "=0.8.0"
resvg = "=0.49.0"
libheif-rs = "=3.0.0"
async-channel = "=2.5.0"
gtk4 = { version = "=0.11.5", features = ["v4_14"] }
libadwaita = { version = "=0.9.2", features = ["v1_5"] }
