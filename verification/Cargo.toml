[package]
name = "baccarat"
version = "0.1.0"
edition = "2021"
publish = false

[dependencies]
rand = "=0.8.8"
serde = { version = "=1.0.229", features = ["derive"] }
serde_yaml = "=0.9.34"
clap = { version = "=4.6.7", features = ["derive"] }
home = "=0.5.12"
actix-web = { version = "=4.18.1", default-features = false, features = ["macros"] }
yew = { version = "0.20", features = ["csr"] }
gloo-console = "0.2"
gloo-net = "0.2"
gloo-storage = "0.2"
wasm-bindgen = "0.2"
wasm-bindgen-futures = "0.4"
web-sys = { version = "0.3", features = ["EventTarget", "HtmlInputElement"] }
