[package]
name = "vanplan"
version = "0.1.0"
edition = "2021"
publish = false

[dependencies]
base64 = "0.22"
flate2 = "1"
serde = { version = "1", features = ["derive"] }
serde_yaml = "0.9"
yew = { version = "0.21", features = ["csr"] }
wasm-bindgen = "0.2"
wasm-bindgen-futures = "0.4"
js-sys = "0.3"
console_error_panic_hook = "0.1"
web-sys = { version = "0.3", features = ["Window", "Document", "Location", "History", "Element", "HtmlElement", "HtmlInputElement", "HtmlAnchorElement", "KeyboardEvent", "PointerEvent", "MouseEvent", "InputEvent", "Event", "EventTarget", "HashChangeEvent", "CustomEvent", "CustomEventInit", "Blob", "BlobPropertyBag", "Url", "Response", "DomRect", "FileList", "File", "console"] }
