[package]
name = "routing_engine"
version = "0.1.0"
edition = "2021"
publish = false

[dependencies]
anyhow = "1"
bincode = "1"
csv = "1"
glam = "*"
humansize = "2"
itertools = "*"
multimap = "*"
osmpbf = "*"
priority-queue = "*"
rayon = "1"
serde = { version = "1", features = ["derive"] }
