[package]
name = "guid"
version = "0.1.0"
edition = "2021"
publish = false

[dependencies]
blake2 = "0.10"
indexmap = "2"
rand = "0.8"
