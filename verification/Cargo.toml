[package]
name = "raknet"
version = "0.1.0"
edition = "2021"
publish = false

[dependencies]
rand = "=0.10.3"
flate2 = "=1.1.10"
crossbeam-channel = "=0.5.17"
log = "=0.4.35"
simplelog = "=0.12.2"
