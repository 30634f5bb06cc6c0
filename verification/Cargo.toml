[package]
name = "grammar_types"
version = "0.1.0"
edition = "2021"

[dependencies]
json = "0.12"
