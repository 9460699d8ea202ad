[package]
name = "tiltak"
version = "0.1.0"
edition = "2021"
publish = false

[dependencies]
arrayvec = "0.7"
board-game-traits = "*"
num-bigint = "0.4"
num-integer = "0.1"
num-traits = "0.2"
pgn-traits = "*"
rand = "0.8"
