[package]
name = "waypoint"
version = "0.1.0"
edition = "2021"
publish = false

[dependencies]
clap = { version = "=4.6.7", features = ["derive"] }
inquire = { version = "=0.9.4", features = ["editor"] }

[dev-dependencies]
serde_json = "=1.0.151"
