[package]
name = "icon_gen"
version = "0.1.0"
edition = "2021"
publish = false

[dependencies]
anyhow = "=1.0.104"
clap = { version = "=4.6.7", features = ["derive"] }
ico = "=0.6.0"
png = "=0.18.1"
resvg = "=0.49.0"
tiny-skia = "=0.12.0"
usvg = "=0.49.0"
