[package]
name = "crawler"
version = "0.1.0"
edition = "2021"
publish = false

[dependencies]
regex = "1"
ureq = "2"
tokio = { version = "1", features = ["rt-multi-thread", "macros", "sync"] }
