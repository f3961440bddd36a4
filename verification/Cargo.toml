[package]
name = "mancala_full_search"
version = "0.1.0"
edition = "2021"
publish = false

[dependencies]
getopts = "*"
