[package]
name = "regex_core"
version = "0.1.0"
edition = "2021"

[dependencies]
regex-syntax = "0.1"
