[package]
name = "homemade_ml"
version = "0.1.0"
edition = "2021"
publish = false

[dependencies]
rand = "0.8"
bytemuck = "1"
wgpu = "22"
crossterm = "0.28"
ratatui = "0.29"
plotters = { version = "0.3", default-features = false, features = ["bitmap_backend", "bitmap_encoder", "svg_backend", "line_series", "ab_glyph"] }
image = { version = "0.25", default-features = false, features = ["png"] }
