[package]
name = "bpe_example"
version = "0.1.0"
edition = "2021"
publish = false

[dependencies]
itertools = "0.10"
protobuf = "2"
ureq = "2"
dirs = "4"
anyhow = "1"
