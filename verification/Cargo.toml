[package]
name = "snake_game"
version = "0.1.0"
edition = "2021"
publish = false

[dependencies]
rand = "0.8"
serde = { version = "1", features = ["derive"] }
serde_json = "1"
tokio = { version = "1", features = ["rt-multi-thread", "macros", "time", "sync", "net"] }
axum = { version = "0.6", features = ["ws"] }
futures-util = "0.3"
tracing = "0.1"
tracing-subscriber = "0.3"
yew = { version = "0.21", features = ["csr"] }
web-sys = { version = "0.3", features = ["WebSocket", "MessageEvent", "CloseEvent", "KeyboardEvent", "MouseEvent", "BinaryType", "console"] }
wasm-bindgen = "0.2"
console_error_panic_hook = "0.1"
