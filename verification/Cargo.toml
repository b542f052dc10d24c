[package]
name = "butterfly_fft"
version = "0.1.0"
edition = "2021"
publish = false

[dependencies]
fgf = "=1.1.0"
simdispatch = "*"
archmage = "*"
