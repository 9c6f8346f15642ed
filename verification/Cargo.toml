[package]
name = "letterboxed_solver"
version = "0.1.0"
edition = "2021"
publish = false

[dependencies]
pathfinding = "*"
trie-rs = "*"
log = "*"
env_logger = "*"
