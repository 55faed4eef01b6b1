[package]
name = "lebanon"
version = "0.1.0"
edition = "2021"
publish = false

[dependencies]
leb128 = "0.2"
hex = "0.4"
log = "0.4"
enclose = "1"
heck = "0.4"
wasm-logger = "0.2"
web-sys = { version = "0.3", features = ["HtmlInputElement"] }
yew = { version = "0.21", features = ["csr"] }
