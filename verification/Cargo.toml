[package]
name = "bitvec"
version = "0.1.0"
edition = "2021"
publish = false

[dependencies]
generic-array = "=1.4.5"
radium = "=1.1.1"
tap = "=1.0.1"
wyz = "=0.5.1"
