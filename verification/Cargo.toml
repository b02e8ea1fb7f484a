[package]
name = "lithium"
version = "0.1.0"
edition = "2021"
publish = false

[dependencies]
cobalt = "*"
bincode = "0.6"
rustc-serialize = "0.3"
