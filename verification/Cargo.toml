[package]
name = "filefinder"
version = "0.1.0"
edition = "2021"
publish = false

[dependencies]
anyhow = "1"
atty = "0.2"
clap = { version = "4", features = ["derive"] }
glob = "0.3"
ignore = "0.4"
jwalk = "0.8"
regex = "1"
