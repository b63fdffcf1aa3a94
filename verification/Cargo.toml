[package]
name = "nautilus_accounting"
version = "0.1.0"
edition = "2021"
publish = false

[dependencies]
rust_decimal = "1"
ustr = "1"
log = "0.4"
itertools = "*"
