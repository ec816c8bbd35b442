[package]
name = "yeelight_core"
version = "0.1.0"
edition = "2021"
publish = false

[dependencies]
tokio = { version = "1", features = ["net", "time", "rt-multi-thread", "macros"] }
