[package]
name = "telemetry_channel"
version = "0.1.0"
edition = "2021"
publish = false

[dependencies]
wasm-bindgen = "*"
js-sys = "*"
web-sys = { version = "*", features = ["WebSocket", "MessageEvent", "ErrorEvent", "BinaryType", "Blob", "FileReader", "ProgressEvent", "console", "Window"] }
