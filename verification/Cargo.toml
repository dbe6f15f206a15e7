[package]
name = "chorus"
version = "0.1.0"
edition = "2021"
publish = false

[dependencies]
tokio = { version = "*", features = ["macros", "rt-multi-thread", "signal", "sync"] }
tracing = "*"
tracing-subscriber = "*"
tts = "*"
twitch-irc = "*"
