[package]
name = "crt_core"
version = "0.1.0"
edition = "2021"
publish = false

[dependencies]
regex = "*"
serde = { version = "*", features = ["derive"] }
serde_json = "*"
anyhow = "*"
axum = "*"
tokio = { version = "*", features = ["macros", "rt-multi-thread", "net"] }
reqwest = { version = "*", default-features = false, features = ["json"] }
tower-http = { version = "*", features = ["cors"] }
tracing = "*"
tracing-subscriber = { version = "*", features = ["env-filter", "fmt"] }
dotenvy = "*"
wasm-bindgen = "*"
js-sys = "*"
serde-wasm-bindgen = "*"
console_error_panic_hook = "*"
