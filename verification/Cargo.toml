[package]
name = "acm"
version = "0.1.0"
edition = "2021"
publish = false

[dependencies]
num-traits = "0.2"
clap = "2.33"
failure = "0.1"
itertools = "0.10"
