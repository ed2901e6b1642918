[package]
name = "vtcast"
version = "0.1.0"
edition = "2021"
publish = false

[dependencies]
avt = "*"
fontdue = "*"
fontdb = "*"
libc = "*"
