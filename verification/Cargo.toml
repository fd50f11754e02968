[package]
name = "kmeans_rs"
version = "0.1.0"
edition = "2021"
publish = false

[dependencies]
rand = "=0.8.8"
clap = { version = "=3.2.25", features = ["derive"] }
plotters = { version = "=0.3.7", default-features = false, features = ["bitmap_backend", "bitmap_encoder", "point_series"] }
serde = { version = "=1.0.229", features = ["derive"] }
serde_json = "=1.0.151"
rayon = "=1.12.0"
