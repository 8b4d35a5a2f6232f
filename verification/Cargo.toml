[package]
name = "rapiddlt"
version = "0.1.0"
edition = "2021"
publish = false

[dependencies]
itertools = "0.12"
memchr = "2"
memmap = "0.7"
rayon = "1"
regex = "1"
zerocopy = "0.7"
