[package]
name = "dungeoncrawl"
version = "0.1.0"
edition = "2021"
publish = false

[dependencies]
bracket-random = "0.8"
bracket-lib = "0.8"
legion = "0.4"
