[package]
name = "hanower"
version = "0.1.0"
edition = "2021"
publish = false

[dependencies]
structopt = "0.3"
color-eyre = "0.5"
