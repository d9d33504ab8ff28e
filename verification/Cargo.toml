[package]
name = "jar_rename"
version = "0.1.0"
edition = "2021"
publish = false

[dependencies]
byteorder = "1"
clap = "4"
derive-getters = "*"
exitcode = "1"
zip = { version = "0.6", default-features = false, features = ["deflate"] }
