[package]
name = "pipelined"
version = "0.1.0"
edition = "2021"

[dependencies]
argh = "*"
ariadne = "*"
