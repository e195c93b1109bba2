[package]
name = "subomatic"
version = "0.1.0"
edition = "2021"
publish = false

[dependencies]
clap = { version = "4", features = ["derive", "env"] }
earshot = "*"
ffmpeg-the-third = "*"
js-sys = "0.3"
serde = { version = "1", features = ["derive"] }
serde_json = "1"
ureq = { version = "2", features = ["json"] }
wasm-bindgen = "0.2"
