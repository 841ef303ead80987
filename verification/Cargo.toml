[package]
name = "godot_rust_goap_ecs"
version = "0.1.0"
edition = "2021"
publish = false

[dependencies]
pathfinding = "*"
hecs = "0.7"
gdnative = "0.10"
