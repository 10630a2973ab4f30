[package]
name = "risk_corridors"
version = "0.1.0"
edition = "2021"
publish = false

[dependencies]
bresenham = "=0.1.1"
hashbrown = "=0.17.1"
image = { version = "=0.25.10", default-features = false, features = ["png"] }
itertools = "=0.15.0"
priority-queue = "=2.7.0"
serde = { version = "=1.0.229", features = ["derive"] }
serde_json = "=1.0.154"
