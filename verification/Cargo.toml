[package]
name = "wordlehelper"
version = "0.1.0"
edition = "2021"
publish = false

[dependencies]
bitvec = "*"
pancurses = "*"
strum = { version = "*", features = ["derive"] }
