[package]
name = "qr_restore"
version = "0.1.0"
edition = "2021"
publish = false

[dependencies]
js-sys = "=0.3.107"
photon-rs = { version = "=0.3.3", default-features = false }
reed-solomon = "=0.2.1"
regex = "=1.13.1"
rqrr = { version = "=0.11.0", default-features = false }
rxing = { version = "=0.9.3", default-features = false, features = ["decoders", "encoding_rs", "qrcode"] }
serde = { version = "=1.0.229", features = ["derive"] }
serde-wasm-bindgen = "=0.6.5"
wasm-bindgen = "=0.2.130"
