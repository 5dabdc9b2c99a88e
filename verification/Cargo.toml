[package]
name = "tools"
version = "0.1.0"
edition = "2021"
publish = false

[dependencies]
sha1 = "0.10"
flate2 = "1"
tempfile = "3"
tui = "0.19"
crossterm = "0.25"
