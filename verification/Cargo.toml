[package]
name = "seq_tag_finder"
version = "0.1.0"
edition = "2021"
publish = false

[dependencies]
anyhow = "*"
clap = "*"
json = "*"
rust-htslib = "*"
