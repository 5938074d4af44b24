[package]
name = "kak_recent_files"
version = "0.1.0"
edition = "2021"
publish = false

[dependencies]
dirs = "*"
ignore = "*"
shellwords = "*"
structopt = "*"
