[package]
name = "tree_reveal"
version = "0.1.0"
edition = "2021"
publish = false

[dependencies]
crossterm = "0.28"
humansize = "2"
opener = "0.7"
ratatui = "0.29"
walkdir = "2"
