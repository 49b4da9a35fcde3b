[package]
name = "chomp1"
version = "0.1.0"
edition = "2021"
publish = false

[dependencies]
bitflags = "1"
either = "1"
