[package]
name = "dope"
version = "0.1.0"
edition = "2021"
publish = false

[dependencies]
o3 = "=0.9.2"
libc = "=0.2.191"
pin-project = "=1.1.13"
