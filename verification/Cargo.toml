[package]
name = "audio-decomposer"
version = "0.1.0"
edition = "2021"
publish = false

[dependencies]
clap = { version = "=4.6.7", features = ["derive"] }
doublets = "=0.5.0"
links-notation = "=0.30.0"
lino-arguments = "=0.5.0"
