[package]
name = "sudoku_rs_core"
version = "0.1.0"
edition = "2021"
publish = false

[dependencies]
rand = "0.8"
rand_xoshiro = "0.6"
clap = { version = "4", features = ["derive"] }
serde = { version = "1", features = ["derive"] }
serde_json = "1"
glob = "0.3"
rayon = "1"
parquet = { version = "55", default-features = false, features = ["arrow", "snap"] }
arrow-array = "55"
arrow-schema = "55"
mimalloc = "0.1"
tqdm = "*"
