[package]
name = "genetic_sudoku"
version = "0.1.0"
edition = "2021"
publish = false

[dependencies]
rand = "0.9"
rand_pcg = "0.9"
rayon = "1"
clap = { version = "4", features = ["derive"] }
crossterm = "*"
ratatui = "*"
simple-eyre = "*"
