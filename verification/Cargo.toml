[package]
name = "wezterm-glyph-protocol"
version = "0.1.0"
edition = "2021"
publish = false

[dependencies]
base64 = "0.22"
read-fonts = "*"
tiny-skia = "0.11"
ttf-parser = "*"
