[package]
name = "ft"
version = "0.1.0"
edition = "2021"
publish = false

[dependencies]
walkdir = "2"
home = "0.5"
