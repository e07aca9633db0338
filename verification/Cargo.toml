[package]
name = "logsim"
version = "0.1.0"
edition = "2021"
publish = false

[dependencies]
hashbrown = "0.13"
tinyrand = "0.5"
fastrand = "1"
getrandom = "0.2"
serde = { version = "1", features = ["derive"] }
ron = "0.8"
bincode = "1"
dirs = "4"
