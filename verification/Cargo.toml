[package]
name = "wordstat"
version = "0.1.0"
edition = "2021"
publish = false

[dependencies]
byteorder = "*"
dashmap = "*"
unicode-segmentation = "*"
rayon = "*"
walkdir = "*"
pathdiff = "*"
parking_lot = "*"
num_cpus = "*"
futures = "*"
entangled = "*"
clap = { version = "*", features = ["derive"] }
wild = "*"
console = "*"
indicatif = "*"
emojis = "*"
regex = "*"
