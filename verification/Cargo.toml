[package]
name = "automata"
version = "0.1.0"
edition = "2021"
publish = false

[dependencies]
multimap = { version = "*", default-features = false }
tuikit = "*"
