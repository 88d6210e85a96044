[package]
name = "hashattacks"
version = "0.1.0"
edition = "2021"
publish = false

[dependencies]
ripemd = "0.1"
rand = "0.8"
crossbeam = "0.8"
clap = "4"
ctrlc-async = "*"

[dev-dependencies]
serde_json = "1"
