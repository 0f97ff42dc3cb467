[package]
name = "dutree"
version = "0.1.0"
edition = "2021"
publish = false

[dependencies]
getopts = "*"
terminal_size = "*"
unicode-width = "*"
