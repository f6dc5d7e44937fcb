[package]
name = "peakmuncher"
version = "0.1.0"
edition = "2021"
publish = false

[dependencies]
anyhow = "1"
claxon = "0.4"
dirs = "5"
ebur128 = "0.1"
flacenc = { version = "0.4", default-features = false }
hound = "3.5"
minimp3 = "0.5"
mp3lame-encoder = "0.2"
rayon = "1"
rustfft = { version = "6", default-features = false }
serde = { version = "1", features = ["derive"] }
serde_json = "1"
tokio = { version = "1", features = ["rt", "time"] }
