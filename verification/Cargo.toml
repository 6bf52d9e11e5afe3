[package]
name = "pentagon_garden"
version = "0.1.0"
edition = "2021"
publish = false

[dependencies]
bitvec = "1"
bytemuck = { version = "1", features = ["derive"] }
colorous = "1"
itertools = "*"
parking_lot = "0.12"
