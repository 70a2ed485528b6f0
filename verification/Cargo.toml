[package]
name = "combinatorial_coding"
version = "0.1.0"
edition = "2021"
publish = false

[dependencies]
factorial = "*"
num-integer = "0.1"
radix_fmt = "1"

[dev-dependencies]
rand = "0.8"
