[package]
name = "raytracer"
version = "0.1.0"
edition = "2021"
publish = false

[dependencies]
image = { version = "=0.25.10", default-features = false, features = ["bmp", "gif", "hdr", "ico", "jpeg", "png", "pnm", "tga", "tiff", "webp"] }
num = "=0.4.3"
num_cpus = "=1.17.0"
rand = "=0.8.8"
rustc-serialize = "=0.3.25"
threadpool = "=1.8.1"
time = "=0.1.45"
