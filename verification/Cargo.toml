[package]
name = "taut"
version = "0.1.0"
edition = "2021"
publish = false

[dependencies]
xxhash-rust = { version = "*", features = ["xxh64"] }
sha2 = "*"
regex = "*"
anyhow = "*"
clap = { version = "*", features = ["derive"] }
clap-markdown = "*"
colored = "*"
dirs = "*"
notify = "*"
num-traits = "*"
rayon = "*"
rustpython-parser = "*"
toml = "*"
walkdir = "*"
