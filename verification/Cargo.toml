[package]
name = "extsort"
version = "0.1.0"
edition = "2021"
publish = false

[dependencies]
lexical = "*"
structopt = "0.3"
rand = "0.8"
