[package]
name = "tab_hoarder"
version = "0.1.0"
edition = "2021"
publish = false

[dependencies]
regex = "1"
uuid = { version = "1", features = ["v4", "js"] }
serde = { version = "1", features = ["derive"] }
serde_json = "1"
serde-wasm-bindgen = "0.6"
wasm-bindgen = "0.2"
wasm-bindgen-futures = "0.4"
js-sys = "0.3"
web-sys = { version = "0.3", features = ["console", "Event", "HtmlInputElement", "InputEvent", "MouseEvent"] }
yew = { version = "0.21", features = ["csr"] }
patternfly-yew = "0.6"
console_error_panic_hook = "0.1"
wasm-logger = "0.2"
