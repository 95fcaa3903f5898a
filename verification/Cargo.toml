[package]
name = "falling_sand"
version = "0.1.0"
edition = "2021"
publish = false

[dependencies]
rand = "0.8"
palette = { version = "0.7", default-features = false, features = ["std"] }
