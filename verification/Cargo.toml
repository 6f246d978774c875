[package]
name = "ricochet_robots"
version = "0.1.0"
edition = "2021"
publish = false

[dependencies]
xorshift = "0.1"
rand = "0.8"
time = "0.1"
atoi = "*"
itertools = "*"
