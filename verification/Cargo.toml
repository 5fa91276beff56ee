[package]
name = "ofdb"
version = "0.1.0"
edition = "2021"
publish = false

[dependencies]
uuid = { version = "*", features = ["v4"] }
pwhash = "*"
chrono = { version = "*", default-features = false, features = ["clock"] }
