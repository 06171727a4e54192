[package]
name = "minichain"
version = "0.1.0"
edition = "2021"
publish = false

[dependencies]
sha2 = "=0.11.0"
hex = "=0.4.3"
merkle = "=1.11.0"
ring = "=0.16.20"
clap = "=2.34.0"
crossbeam-utils = "=0.8.23"
