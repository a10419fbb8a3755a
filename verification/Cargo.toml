[package]
name = "random_karma"
version = "0.1.0"
edition = "2021"
publish = false

[dependencies]
rand = "0.9"
rand_distr = "0.5"
serde = { version = "1", features = ["derive"] }
serde-wasm-bindgen = "0.6"
wasm-bindgen = "0.2"
wasm-bindgen-futures = "0.4"
js-sys = "0.3"
web-sys = { version = "0.3", features = ["HtmlInputElement", "InputEvent", "KeyboardEvent", "Event"] }
yew = { version = "0.21", features = ["csr"] }
yew-agent = "0.3"
futures = "0.3"
gloo-timers = "0.3"
log = "0.4"
console_error_panic_hook = "0.1"

[dev-dependencies]
regex = "1"
