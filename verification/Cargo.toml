[package]
name = "capture_rpc"
version = "0.1.0"
edition = "2021"
publish = false

[dependencies]
twinleaf = "*"
getopts = "*"
crossbeam = "*"
