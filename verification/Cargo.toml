[package]
name = "r2"
version = "0.1.0"
edition = "2021"
publish = false

[dependencies]
clap = "2"
crossbeam-queue = "0.2"
rust-ini = "*"
thrift = "*"
