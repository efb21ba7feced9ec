[package]
name = "mover_nav"
version = "0.1.0"
edition = "2021"
publish = false

[dependencies]
priority-queue = "1"
pathfinding = "4"
rand = "0.7"
png = "0.16"
ron = "0.6"
serde = { version = "1", features = ["derive"] }
angular = "*"
