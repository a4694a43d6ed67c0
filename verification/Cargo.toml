[package]
name = "cas"
version = "0.1.0"
edition = "2021"
publish = false

[dependencies]
byteorder = "1"
flate2 = "1"
rustc-serialize = "0.3"
sha1 = "0.10"
uuid = { version = "1", features = ["v4"] }
