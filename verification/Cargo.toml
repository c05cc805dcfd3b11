[package]
name = "tiles"
version = "0.1.0"
edition = "2021"
publish = false

[dependencies]
bitvec = "1"
keyed_priority_queue = "*"
nohash-hasher = "*"
rand = "0.8"
image = "*"
