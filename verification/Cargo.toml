[package]
name = "libxid"
version = "0.1.0"
edition = "2021"
publish = false

[dependencies]
rand = "0.8"
md5 = "0.7"
crc32fast = "1"
gethostname = "*"
