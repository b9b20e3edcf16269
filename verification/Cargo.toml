[package]
name = "ambient_ui"
version = "0.1.0"
edition = "2021"
publish = false

[dependencies]
leptos_reactive = "0.4"
wasm-bindgen = "0.2"
web-sys = { version = "0.3", features = ["Window", "Document", "Element", "HtmlElement", "Node", "Text", "CharacterData", "Event", "EventTarget"] }
