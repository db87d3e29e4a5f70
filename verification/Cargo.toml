[package]
name = "keypad_macros"
version = "0.1.0"
edition = "2021"
publish = false

[dependencies]
clap = { version = "*", features = ["derive"] }
hidapi = "*"
rdev = "*"
serde = { version = "*", features = ["derive"] }
serde_yaml = "*"
signal-hook = "*"
