[package]
name = "rc_insert"
version = "0.1.0"
edition = "2021"
publish = false

[dependencies]
bumpalo = { version = "3.6.1", features = ["collections"] }
