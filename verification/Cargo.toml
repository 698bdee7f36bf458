[package]
name = "scrabble_cfr"
version = "0.1.0"
edition = "2021"
publish = false

[dependencies]
fst = "=0.4.7"
rand = "=0.8.8"
ndarray = { version = "=0.15.6", features = ["serde"] }
ndarray-rand = "=0.14.0"
ndarray-stats = "=0.5.1"
serde = { version = "=1.0.229", features = ["derive"] }
bincode = "=1.3.3"
serde_json = "=1.0.154"
text_io = "=0.1.13"
