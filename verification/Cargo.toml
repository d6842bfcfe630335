[package]
name = "egsphsp"
version = "0.1.0"
edition = "2021"
publish = false

[dependencies]
rand = "0.8"
clap = "2"

[dev-dependencies]
byteorder = "1"
float-cmp = "*"
