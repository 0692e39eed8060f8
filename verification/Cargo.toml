[package]
name = "interpretthis"
version = "0.1.0"
edition = "2021"
publish = false

[dependencies]
indexmap = "=2.14.2"
num-bigint = "0.4"
num-traits = "0.2"
