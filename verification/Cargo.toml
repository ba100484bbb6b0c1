[package]
name = "virtual-dom-rs"
version = "0.1.0"
edition = "2021"
publish = false

[dependencies]
proc-macro2 = "1"
quote = "1"
syn = { version = "2", features = ["full"] }
wasm-bindgen = "0.2"
web-sys = { version = "0.3", features = ["Document", "Element", "Event", "EventTarget", "Node", "NodeList", "Text", "Window"] }
