[package]
name = "day_skies"
version = "0.1.0"
edition = "2021"
publish = false

[dependencies]
serde = { version = "1", features = ["derive"] }
serde_json = "1"
day = "*"
day-part-http = "*"
day-part-location = "*"
day-part-permissions = "*"
