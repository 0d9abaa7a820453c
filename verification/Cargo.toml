[package]
name = "dungeon_saver"
version = "0.1.0"
edition = "2021"
publish = false

[dependencies]
rand = "0.8"
rand_chacha = "0.3"
pathfinding = "4"
chrono = "0.4"
crossterm = "0.28"
ctrlc = "3.4"
ratatui = "0.29"
