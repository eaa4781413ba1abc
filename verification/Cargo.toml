[package]
name = "memex"
version = "0.1.0"
edition = "2021"
publish = false

[dependencies]
regex = "1"
chrono = "0.4"
comrak = { version = "0.18", default-features = false }
clap = "2"
colored = "2"
color-eyre = "0.6"
notify = "4"
rss = { version = "1", features = ["validation"] }
