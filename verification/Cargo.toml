[package]
name = "tradingsim"
version = "0.1.0"
edition = "2021"
publish = false

[dependencies]
rust_decimal = "1"
chrono = "0.4"
chrono-tz = "0.10"
rand = { version = "0.8", features = ["small_rng"] }
serde = { version = "1", features = ["derive"] }
serde_json = "1"
parking_lot = "0.12"
tokio = { version = "1", features = ["full"] }
tokio-stream = { version = "0.1", features = ["sync", "net"] }
axum = { version = "0.8", features = ["ws"] }
clap = { version = "4", features = ["derive"] }
log = "0.4"
simplelog = "0.12"
tulisp = "*"
futures = "0.3"
tonic = "0.14"
prost-types = "0.14"
reqwest = { version = "0.12", default-features = false, features = ["json"] }
leptos = { version = "0.8", default-features = false, features = ["csr"] }
gloo-net = "0.6"
gloo-timers = { version = "0.3", features = ["futures"] }
js-sys = "0.3"
wasm-bindgen = "0.2"
web-sys = { version = "0.3", features = ["Storage", "Window", "HtmlElement", "Document", "DomTokenList", "Element", "HtmlCanvasElement", "CanvasRenderingContext2d"] }
console_error_panic_hook = "0.1"
