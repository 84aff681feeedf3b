[package]
name = "heatseeker"
version = "1.7.1"
edition = "2021"
publish = false

[dependencies]
getopts = "0.2"
itoa = "1"
libc = "0.2"
rayon = "1"
signal-hook = "0.3"
unicode-width = "0.2"
