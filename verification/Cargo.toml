[package]
name = "red5sorcery"
version = "0.1.0"
edition = "2021"
publish = false

[dependencies]
base64 = "=0.21.7"
image = { version = "=0.24.9", default-features = false, features = ["png", "jpeg"] }
rand = "=0.8.8"
sycamore = "=0.8.2"
wasm-bindgen = "=0.2.130"
wasm-bindgen-futures = "=0.4.80"
js-sys = "=0.3.107"
web-sys = { version = "=0.3.107", features = ["Window", "Document", "Element", "HtmlElement", "HtmlInputElement", "HtmlImageElement", "HtmlAnchorElement", "File", "FileList", "Blob", "BlobPropertyBag", "Url", "Event", "EventTarget", "Node", "console"] }
gloo-timers = "=0.2.6"
console_error_panic_hook = "=0.1.7"
