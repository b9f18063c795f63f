[package]
name = "maplibre-shaper"
version = "0.1.0"
edition = "2021"
publish = false

[dependencies]
rustybuzz = "*"
ttf-parser = "*"
unicode-bidi = "*"
unicode-script = "*"
wasm-bindgen = "*"
