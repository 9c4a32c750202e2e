[package]
name = "phased_in_codes"
version = "0.1.0"
edition = "2021"
publish = false

[dependencies]
clap = "*"
