[package]
name = "md_puppy"
version = "0.1.0"
edition = "2021"
publish = false

[dependencies]
yaml-rust = "0.4"
pulldown-cmark = "*"
chrono = "0.4"
anyhow = "1"
clap = { version = "3", features = ["derive"] }
clap_complete = "3"
fs_extra = "1"
tempfile = "3"
zip = "*"
reqwest = { version = "*", features = ["blocking"] }
