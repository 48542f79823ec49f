[package]
name = "jerusalem"
version = "0.1.0"
edition = "2021"
publish = false

[dependencies]
crossbeam-channel = "0.5"
ctrlc = "3"
itoa = "1"
jemallocator = "0.5"
mio = { version = "1", features = ["os-poll", "net"] }
rkyv = "0.8"
