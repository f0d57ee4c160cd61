[package]
name = "crust"
version = "0.1.0"
edition = "2021"
publish = false

[dependencies]
crossterm = "0.28"
unicode-width = "0.2"
