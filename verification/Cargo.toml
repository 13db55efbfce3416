[package]
name = "memo_vault"
version = "0.1.0"
edition = "2021"
publish = false

[dependencies]
serde = { version = "1", features = ["derive"] }
serde_json = "1"
pulldown-cmark = { version = "0.12", default-features = false, features = ["html"] }
leptos = { version = "0.8", features = ["csr"] }
wasm-bindgen = "0.2"
js-sys = "0.3"
web-sys = { version = "0.3", features = ["Window", "Storage", "Document", "Element", "HtmlElement", "HtmlInputElement", "HtmlTextAreaElement", "HtmlAnchorElement", "CssStyleDeclaration", "Worker", "WorkerOptions", "WorkerType", "MessageEvent", "Event", "EventTarget", "Blob", "BlobPropertyBag", "Url", "FileReader", "FileList", "File", "Navigator", "console"] }
console_error_panic_hook = "0.1"
