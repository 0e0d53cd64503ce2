[package]
name = "tryout"
version = "0.1.0"
edition = "2021"
publish = false

[dependencies]
base62 = "*"
urlencoding = "*"
uuid = { version = "*", features = ["v4"] }
