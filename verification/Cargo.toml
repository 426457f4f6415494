[package]
name = "r_station"
version = "0.1.0"
edition = "2021"
publish = false

[dependencies]
sled = "*"
actix-web = "*"
actix-files = "*"
prost = "*"
serde = { version = "*", features = ["derive"] }
chrono = "*"
