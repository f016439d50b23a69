[package]
name = "okf"
version = "0.1.0"
edition = "2021"
publish = false

[dependencies]
anyhow = "1"
chrono = { version = "0.4", features = ["serde"] }
clap = { version = "4", features = ["derive"] }
encoding_rs = "0.8"
ignore = "0.4"
printpdf = "0.7"
rayon = "1"
roxmltree = "0.20"
serde = { version = "1", features = ["derive"] }
serde_json = "1"
serde_yaml = "0.9"
toml = "0.8"
ureq = { version = "2", features = ["json"] }
walkdir = "2"
