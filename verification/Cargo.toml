[package]
name = "gcmod"
version = "0.1.0"
edition = "2021"
publish = false

[dependencies]
byteorder = "1"
clap = "2"
eyre = "0.6"
