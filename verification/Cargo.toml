[package]
name = "smhi_weather"
version = "0.3.0"
edition = "2021"
publish = false

[dependencies]
attohttpc = "*"
chrono = "*"
clap = { version = "*", features = ["derive"] }
