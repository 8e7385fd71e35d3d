[package]
name = "microcount"
version = "0.1.0"
edition = "2021"
publish = false

[dependencies]
ndarray = "*"
ndarray-conv = "*"
scirs2-ndimage = "*"
itertools = "*"
geo = "*"
image = "*"
serde = { version = "*", features = ["derive"] }
serde_json = "*"
