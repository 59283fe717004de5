[package]
name = "miaosuan"
version = "0.1.0"
edition = "2021"
publish = false

[dependencies]
earcut = "=0.4.12"
flate2 = "=1.1.10"
image = { version = "=0.25.10", default-features = false, features = ["jpeg", "png"] }
js-sys = "=0.3.107"
quick-xml = "=0.38.4"
sgp4 = "=2.4.0"
ureq = { version = "=3.5.1", default-features = false, features = ["rustls"] }
wasm-bindgen = "=0.2.130"
wasm-bindgen-futures = "=0.4.80"
web-sys = { version = "=0.3.107", features = ["Cache", "CacheStorage", "History", "Location", "Response", "Window"] }
