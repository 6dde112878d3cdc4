[package]
name = "rsync"
version = "0.1.0"
edition = "2021"
publish = false

[dependencies]
md5 = "*"
hex = "*"
log = "*"
simple_logger = "*"

[dev-dependencies]
adler32 = "*"
