[package]
name = "epub_tts"
version = "0.1.0"
edition = "2021"
publish = false

[dependencies]
any-tts = { version = "=0.2.0", default-features = false, features = ["qwen3-tts", "download"] }
anyhow = "=1.0.104"
clap = { version = "=4.6.7", features = ["derive"] }
epub = "=2.1.6"
html2text = "=0.17.4"
indicatif = "=0.18.6"
regex = "=1.13.1"
rodio = "=0.20.1"
shine-rs = "=0.1.5"
tracing = "=0.1.44"
tracing-subscriber = { version = "=0.3.23", features = ["env-filter", "fmt"] }
