[package]
name = "egg_web"
version = "0.1.0"
edition = "2021"
publish = false

[dependencies]
egg = "*"
wasm-bindgen = "*"
console_error_panic_hook = "*"
web-sys = { version = "*", features = ["Window", "Document", "Element", "HtmlElement", "HtmlInputElement", "HtmlTextAreaElement", "DomStringMap", "EventTarget", "Node"] }
