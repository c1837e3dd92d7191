[package]
name = "group_stats"
version = "0.1.0"
edition = "2021"
publish = false

[dependencies]
chrono = "*"
colored = "*"
git2 = { version = "*", default-features = false }
