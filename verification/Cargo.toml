[package]
name = "lgui"
version = "0.1.0"
edition = "2021"
publish = false

[dependencies]
unicode-bidi = "=0.3.18"
unicode-segmentation = "1"
resvg = "=0.49.0"
usvg = "=0.49.0"
tiny-skia = "=0.12.0"
icondata = "=0.7.0"
