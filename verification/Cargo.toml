[package]
name = "word_frequency"
version = "0.1.0"
edition = "2021"
publish = false

[dependencies]
regex = "*"
crossbeam = "*"
scoped_threadpool = "*"
slurp = "*"
