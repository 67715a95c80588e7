[package]
name = "zk_foundations"
version = "0.1.0"
edition = "2021"
publish = false

[dependencies]
sha2 = "0.10"
rand = "0.8"
ark-ff = "0.4"
