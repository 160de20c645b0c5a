[package]
name = "typedlua_typechecker"
version = "0.1.0"
edition = "2021"
publish = false

[dependencies]
lru = "*"
rustc-hash = "*"
