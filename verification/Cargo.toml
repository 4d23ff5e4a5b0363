[package]
name = "dmenu_core"
version = "0.1.0"
edition = "2021"
publish = false

[dependencies]
fuzzy-matcher = "0.3"
unicode-segmentation = "1"
clap = "2"
libc = "0.2"
x11 = { version = "2", features = ["xlib", "xft", "xrender"] }
