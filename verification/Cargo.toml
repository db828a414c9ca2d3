[package]
name = "noun"
version = "0.1.0"
edition = "2021"
publish = false

[dependencies]
bitstream-io = "1"
