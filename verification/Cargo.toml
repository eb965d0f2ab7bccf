[package]
name = "libthyme"
version = "0.1.0"
edition = "2021"
publish = false

[dependencies]
cards = "=1.1.2"
ncurses = "=5.88.0"
