[package]
name = "parser"
version = "0.1.0"
edition = "2021"

[dependencies]
num-bigint = "0.4"
logos = "0.12"
