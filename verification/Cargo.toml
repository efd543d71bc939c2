[package]
name = "automerge"
version = "0.1.0"
edition = "2021"
publish = false

[dependencies]
fxhash = "=0.2.1"
hex = "=0.4.3"
itertools = "=0.10.5"
