[package]
name = "gd_level"
version = "0.1.0"
edition = "2021"
publish = false

[dependencies]
base64 = "0.13"
crc32fast = "1"
libflate = "1"
quick-xml = "0.22"
image = { version = "0.24", default-features = false, features = ["png"] }
tobj = "2"
