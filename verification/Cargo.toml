[package]
name = "sudoku"
version = "0.1.0"
edition = "2021"
publish = false

[dependencies]
blarg = "*"
rand = "0.8"
regex = "1"
