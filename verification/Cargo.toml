[package]
name = "gettext"
version = "0.4.0"
edition = "2021"
publish = false

[dependencies]
byteorder = "1"
encoding = "0.2"
