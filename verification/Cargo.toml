[package]
name = "sshx"
version = "0.1.0"
edition = "2021"
publish = false

[dependencies]
anyhow = "*"
clap = { version = "*", features = ["derive", "env"] }
fastrand = "*"
hex = "*"
hmac = "*"
sha2 = "*"
tokio = { version = "*", features = ["net", "time", "rt-multi-thread", "macros", "io-util", "sync"] }
tracing = "*"
tracing-subscriber = "*"
uuid = { version = "*", features = ["v4"] }
