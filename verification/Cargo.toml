[package]
name = "sudoku_solver"
version = "0.1.0"
edition = "2021"
publish = false

[dependencies]
serde = { version = "1", features = ["derive"] }
serde_json = "1"
rand = "0.9"
rand_xoshiro = "0.7"
image = "0.25"
imageproc = "0.25"
ab_glyph = "0.2"
anyhow = "1"
thiserror = "1"
