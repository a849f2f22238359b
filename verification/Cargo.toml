[package]
name = "rustchain"
version = "0.1.0"
edition = "2021"
publish = false

[dependencies]
sha2 = "0.10"
sled = "0.34"
hex = "0.4"
clap = "4"
