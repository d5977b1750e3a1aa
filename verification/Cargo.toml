[package]
name = "yahtzeebot"
version = "0.1.0"
edition = "2021"
publish = false

[dependencies]
itertools = "=0.10.5"
rustc-hash = "=1.1.0"
rayon = "=1.12.0"
indicatif = "=0.16.2"
console = { version = "=0.16.6", features = ["std"] }
bincode = "=1.3.3"
serde = { version = "=1.0.229", features = ["derive"] }
