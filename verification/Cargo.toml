[package]
name = "x0001e"
version = "0.1.0"
edition = "2021"
publish = false

[dependencies]
boolector = "0.4"
log = "0.4"
radix_trie = "0.2"
