[package]
name = "spiking_network"
version = "0.1.0"
edition = "2021"
publish = false

[dependencies]
rand = "0.8"
itertools = "*"
libm = "0.2"
chrono = "0.4"
memory-stats = "1"
serde_json = "1"
rayon = "1"
plotters = { version = "0.3", default-features = false, features = ["bitmap_backend", "bitmap_encoder", "line_series"] }
fdg-sim = "*"
fdg-img = "*"
