[package]
name = "mv_with"
version = "0.1.0"
edition = "2021"
publish = false

[dependencies]
atty = "*"
clap = "*"
codespan-reporting = "*"
dialoguer = "*"
ignore = "*"
