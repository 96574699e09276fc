[package]
name = "clipto"
version = "0.1.0"
edition = "2021"
publish = false

[dependencies]
pulldown-cmark = { version = "*", default-features = false, features = ["html"] }
htmd = "*"
arboard = "*"
