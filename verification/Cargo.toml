[package]
name = "bare_rt"
version = "0.1.0"
edition = "2021"
publish = false

[dependencies]
dlmalloc = "0.2"
unix-print = "*"
