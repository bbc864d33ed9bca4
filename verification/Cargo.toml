[package]
name = "sudoku"
version = "0.1.0"
edition = "2021"
publish = false

[dependencies]
array2d = "0.3"
bitvec = "1"
rand = "0.8"
