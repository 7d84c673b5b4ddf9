[package]
name = "zevm"
version = "0.1.0"
edition = "2021"
publish = false

[dependencies]
etk-ops = "=0.3.0"
smallvec = "=1.16.4"
z3 = "=0.21.1"
