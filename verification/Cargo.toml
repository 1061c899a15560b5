[package]
name = "certik"
version = "0.1.0"
edition = "2021"
publish = false

[dependencies]
chrono = "=0.4.45"
http-body-util = "=0.1.5"
hyper = { version = "=1.12.0", features = ["full"] }
hyper-util = { version = "=0.1.21", features = ["server-auto", "tokio", "server", "http1", "http2"] }
openssl = "=0.10.82"
rand = "=0.8.8"
rcgen = "=0.14.10"
rustls = { version = "=0.23.46", default-features = false, features = ["std", "ring", "tls12", "logging"] }
rustls-pemfile = "=2.2.0"
tokio = { version = "=1.54.1", features = ["full"] }
tokio-rustls = { version = "=0.26.6", default-features = false, features = ["ring", "tls12", "logging"] }
turbo-vision = "=3.0.1"
