[package]
name = "ucs2"
version = "0.3.3"
edition = "2021"

[dependencies]
bit_field = "0.10"
