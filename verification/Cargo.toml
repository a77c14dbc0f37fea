[package]
name = "xrd"
version = "0.1.0"
edition = "2021"
publish = false

[dependencies]
aho-corasick = "0.7"
json = "0.12"
crossbeam-deque = "0.8"
libloading = "0.8"
