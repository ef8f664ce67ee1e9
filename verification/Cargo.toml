[package]
name = "bare-server"
version = "0.2.1"
edition = "2021"
publish = false

[dependencies]
brotli = "8"
flate2 = "1.1"
libc = "0.2"
rustls = { version = "0.23", default-features = false, features = ["ring", "std", "tls12"] }
rustls-pemfile = "2"
