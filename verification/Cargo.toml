[package]
name = "tracer_parser"
version = "0.1.0"
edition = "2021"
publish = false

[dependencies]
regex = "1"
csv = "1"
indicatif = "0.17"
