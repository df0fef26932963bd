[package]
name = "bindelta"
version = "0.1.0"
edition = "2021"
publish = false

[dependencies]
clap = "4"
deltas = "=0.0.1"
huffman-coding = "*"
