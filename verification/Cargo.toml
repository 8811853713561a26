[package]
name = "vweditor"
version = "0.1.0"
edition = "2021"
publish = false

[dependencies]
csv-core = "0.1.13"
encoding_rs = "0.8"
memchr = "2"
memmap2 = "0.9"
rayon = "1"
