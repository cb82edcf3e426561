[package]
name = "kvs"
version = "0.1.0"
edition = "2021"
publish = false

[dependencies]
flate2 = "*"
sled = "*"
rustls-pemfile = "*"
rustls-pki-types = "*"
bytes = "*"
tokio = { version = "*", features = ["rt-multi-thread", "net", "io-util", "macros", "sync"] }
tokio-rustls = { version = "*", default-features = false, features = ["ring", "tls12"] }
rustls-native-certs = "*"
