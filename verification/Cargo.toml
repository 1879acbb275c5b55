[package]
name = "ice_randomizer"
version = "0.1.0"
edition = "2021"
publish = false

[dependencies]
random = "*"
scrypto = "*"
