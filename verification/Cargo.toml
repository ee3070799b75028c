[package]
name = "fix_gtdb_mg"
version = "0.1.0"
edition = "2021"
publish = false

[dependencies]
clap = { version = "4", features = ["derive"] }
flate2 = "1"
itertools = "*"
phylotree = "*"
thiserror = "1"
