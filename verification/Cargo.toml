[package]
name = "wireguardex"
version = "0.1.0"
edition = "2021"
publish = false

[dependencies]
wireguard-control = "*"
rustler = "*"
