[package]
name = "bpx"
version = "0.1.0"
edition = "2021"
publish = false

[dependencies]
byteorder = "1"
xz = "0.1"
tempfile = "3"
clap = "2"
json = "0.12"
regex = "1"
