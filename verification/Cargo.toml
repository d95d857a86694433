[package]
name = "word_indexer_lib"
version = "0.1.0"
edition = "2021"
publish = false

[dependencies]
rust_decimal = "1"
rusty-money = "*"
