[package]
name = "gaze"
version = "0.1.0"
edition = "2021"
publish = false

[dependencies]
ab_glyph = "0.2"
anyhow = "1"
arboard = { version = "3", default-features = false }
crossbeam-utils = "0.8"
glam = "0.20"
glium = "0.32"
glutin = "0.29"
glyph_brush_draw_cache = "0.1"
native-dialog = "0.6"
nix = "0.24"
parking_lot = "0.12"
rustc-hash = "1.1"
serde = { version = "1", features = ["derive"] }
toml = "0.5"
winit = "0.27"

[dev-dependencies]
rand = "0.8"
rand_xoshiro = "0.6"
