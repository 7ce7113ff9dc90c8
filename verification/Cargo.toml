[package]
name = "sdtrie"
version = "0.1.0"
edition = "2021"

[dependencies]
im = "15.1.0"
