[package]
name = "snaffler_cluster"
version = "0.1.0"
edition = "2021"
publish = false

[dependencies]
rand = "0.8"
clap = "4"
encoding_rs = "0.8"
