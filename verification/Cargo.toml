[package]
name = "re_compiler"
version = "0.1.0"
edition = "2021"
publish = false

[dependencies]
regex-syntax = "0.7"
thiserror = "1"
