[package]
name = "wordle_lib"
version = "0.1.0"
edition = "2021"
publish = false

[dependencies]
array-init = "2"
js-sys = "0.3"
log = "0.4"
phf = { version = "0.10", features = ["macros"] }
serde = { version = "1", features = ["derive"] }
wasm-bindgen = "0.2"
wasm-logger = "0.2"
web-sys = { version = "0.3", features = ["Event", "EventTarget", "HtmlInputElement"] }
yew = "0.19"
yew-agent = "0.1"
