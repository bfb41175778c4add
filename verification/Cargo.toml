[package]
name = "wasm_scoring"
version = "0.1.0"
edition = "2021"
publish = false

[dependencies]
image = { version = "=0.25.10", default-features = false, features = ["png", "jpeg", "gif", "webp", "bmp", "ico", "pnm", "tga", "hdr", "dds", "ff", "qoi"] }
rusttype = "=0.9.3"
serde = { version = "=1.0.229", features = ["derive"] }
wasm-bindgen = "=0.2.129"
console_error_panic_hook = "=0.1.7"
