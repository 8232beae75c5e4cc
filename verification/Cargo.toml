[package]
name = "jce"
version = "0.1.0"
edition = "2021"

[dependencies]
bytes = "1"
proc-macro2 = "1"
quote = "1"
syn = "1"
