[package]
name = "opening_trainer"
version = "0.1.0"
edition = "2021"
publish = false

[dependencies]
async-oneshot = "0.5"
by_address = "1"
dioxus = { version = "0.4", default-features = false, features = ["macro", "html", "hooks"] }
dioxus-web = "0.4"
futures-util = "0.3"
gloo-console = "0.3"
pin-project-lite = "0.2"
rand = "=0.8.8"
shakmaty = "=0.26.0"
wasm-bindgen = "0.2"
wasm-bindgen-futures = "0.4"
web-sys = { version = "0.3", features = ["HtmlElement", "Window"] }
yew = "0.18"
