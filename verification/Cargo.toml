[package]
name = "cyma"
version = "0.1.0"
edition = "2021"
publish = false

[dependencies]
blinkcast = "*"
crossbeam-channel = "*"
num-traits = "*"
realfft = "*"
triple_buffer = "*"
