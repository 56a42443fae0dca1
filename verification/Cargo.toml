[package]
name = "rgssad"
version = "0.1.0"
edition = "2021"
publish = false

[dependencies]
oval = "=2.0.0"
anyhow = "=1.0.104"
argh = "=0.1.19"
walkdir = "=2.5.0"
tokio = { version = "1", default-features = false, features = ["io-util"] }
pin-project-lite = "0.2"
wasm-bindgen = "0.2"
js-sys = "0.3"
