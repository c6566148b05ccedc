[package]
name = "tar-entry"
version = "0.1.0"
edition = "2021"
publish = false

[dependencies]
filetime = "0.2"
futures-core = "0.3"
libc = "0.2"
pin-project = "1"
tokio = { version = "1", features = ["fs", "io-util", "rt", "macros"] }
xattr = "1"
