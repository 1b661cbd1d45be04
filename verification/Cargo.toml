[package]
name = "lru_evict"
version = "0.1.0"
edition = "2021"
publish = false

[dependencies]
argh = "*"
chrono = "*"
fs2 = "*"
walkdir = "*"
