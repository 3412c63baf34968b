[package]
name = "v4l2_quick"
version = "0.1.0"
edition = "2021"
publish = false

[dependencies]
rscam = "*"
mio = { version = "*", features = ["os-poll", "net"] }
websocket = { version = "*", default-features = false, features = ["sync"] }
