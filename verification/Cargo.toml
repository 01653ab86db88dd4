[package]
name = "dirscan"
version = "0.1.0"
edition = "2021"
publish = false

[dependencies]
dashmap = "*"
dirs = "*"
rayon = "*"
serde = { version = "*", features = ["derive"] }
sysinfo = "*"
trash = "*"
