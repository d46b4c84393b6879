[package]
name = "thttpd"
version = "0.1.0"
edition = "2021"
publish = false

[dependencies]
base64 = "=0.22.1"
sha2 = "=0.10.9"
clap = { version = "=4.6.7", features = ["derive"] }
libc = "=0.2.191"
rand = "=0.9.5"
hyper = { version = "1", default-features = false }
