[package]
name = "log_analyzer"
version = "0.1.0"
edition = "2021"
publish = false

[dependencies]
chrono = "0.4"
clap = { version = "4", features = ["derive"] }
serde = { version = "1", features = ["derive"] }
serde_json = "1"
serde_yml = "0.0.12"
notify = "6"
sysinfo = "0.30"
tungstenite = "0.26"
rust-embed = "8"
futures = "0.3"
gloo-net = { version = "0.6", default-features = false, features = ["websocket"] }
gloo-timers = { version = "0.3", features = ["futures"] }
wasm-bindgen = "0.2"
wasm-bindgen-futures = "0.4"
web-sys = { version = "0.3", features = ["Window", "Document", "Element", "Node", "HtmlElement", "console"] }
serde-wasm-bindgen = "0.6"
