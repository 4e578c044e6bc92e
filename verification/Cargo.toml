[package]
name = "wikiwalk"
version = "0.1.0"
edition = "2021"
publish = false

[dependencies]
memmap2 = "*"
rayon = "*"
flate2 = "*"
lrumap = "*"
serde = { version = "*", features = ["derive"] }
serde_json = "*"
symlink = "*"
dirs = "*"
parse-mediawiki-sql = "*"
