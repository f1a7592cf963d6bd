[package]
name = "spinoso"
version = "0.1.0"
edition = "2021"
publish = false

[dependencies]
bstr = { version = "1", default-features = false, features = ["std"] }
bytecount = "0.6"
simdutf8 = "0.1"
tz-rs = "0.6"
raw-parts = "*"
