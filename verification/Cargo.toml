[package]
name = "merged_trees"
version = "0.1.0"
edition = "2021"
publish = false

[dependencies]
clap = { version = "4", features = ["derive"] }
criterion = { version = "0.5", default-features = false }
