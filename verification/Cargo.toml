[package]
name = "diskchurn"
version = "0.1.0"
edition = "2021"
publish = false

[dependencies]
bincode = "=1.3.3"
serde = { version = "1", features = ["derive"] }
egui = { version = "=0.27.2", default-features = false, features = ["default_fonts"] }
walkdir = "2"
rayon = "1"
