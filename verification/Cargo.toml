[package]
name = "cilium-lb"
version = "0.1.0"
edition = "2021"
publish = false

[dependencies]
clap = "=2.34.0"
error-chain = { version = "=0.12.4", default-features = false }
libc = "=0.2.191"
