[package]
name = "cube_combination_reader"
version = "0.1.0"
edition = "2021"
publish = false

[dependencies]
fltk = "1.4"
rustyline = "10"
