[package]
name = "rot"
version = "0.1.0"
edition = "2021"
publish = false

[dependencies]
tokio = { version = "1", default-features = false, features = ["rt", "macros", "net", "time", "io-util", "sync", "signal"] }

[dev-dependencies]
regex = "1"
