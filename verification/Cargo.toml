[package]
name = "absh"
version = "0.1.0"
edition = "2021"
publish = false

[dependencies]
rand = "0.8"
atty = "0.2"
structopt = "0.3"
wait4 = "*"
