[package]
name = "khadyota"
version = "0.1.0"
edition = "2021"
publish = false

[dependencies]
rand = "0.8"
serde_json = "1"
serde = { version = "1", features = ["derive"] }
bincode = "1.3"
rmp-serde = "1"
memmap2 = "0.9"
rayon = "1"
thiserror = "1"
