[package]
name = "phomemo_filters"
version = "1.0.0"
edition = "2021"
publish = false

[dependencies]
btleplug = "*"
tokio = { version = "1", features = ["rt", "time", "macros"] }
uuid = "1"
