[package]
name = "floating_cat"
version = "0.1.0"
edition = "2021"

[dev-dependencies]
num = "0.4"
