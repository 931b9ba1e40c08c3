[package]
name = "stream_sketches"
version = "0.1.0"
edition = "2021"
publish = false

[dependencies]
twox-hash = "1"
rand = "0.8"
rand_distr = "0.4"
priority-queue = "2"
clap = { version = "4", features = ["derive"] }
num-traits = "0.2"
amadeus-streaming = "0.4"
