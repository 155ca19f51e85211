[package]
name = "kaiser"
version = "0.1.0"
edition = "2021"
publish = false

[dependencies]
rand = "0.7"
smallvec = "1"
clap = "2"
scan_fmt = "0.2"
