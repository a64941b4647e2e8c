[package]
name = "noteexplorer"
version = "0.3.0"
edition = "2021"
publish = false

[dependencies]
regex = "1"
walkdir = "2"
clap = "2"
ansi_term = "0.12"
chrono = "0.4"
rprompt = "1"
debug_print = "1"
