[package]
name = "crabcassonne"
version = "0.1.0"
edition = "2021"
publish = false

[dependencies]
clap = { version = "4", features = ["derive"] }
eframe = { version = "0.22", default-features = false, features = ["glow", "default_fonts"] }
egui = "0.22"
indicatif = { version = "0.17", features = ["rayon"] }
itertools = "0.11"
mimalloc = { version = "0.1", default-features = false }
rand = "0.8"
rayon = "1"
rustc-hash = "1.1"
serde = { version = "1", features = ["derive"] }
serde_json = "1"
