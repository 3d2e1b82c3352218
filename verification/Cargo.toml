[package]
name = "visual_diff"
version = "0.1.0"
edition = "2021"
publish = false

[dependencies]
anyhow = "=1.0.104"
clap = { version = "=4.6.7", features = ["derive"] }
colored = "=3.1.1"
delta_e = "=0.2.1"
image = "=0.25.10"
image-compare = "=0.5.0"
indicatif = "=0.18.6"
rayon = "=1.12.0"
serde = { version = "=1.0.229", features = ["derive"] }
serde_json = "=1.0.154"
terminal_size = "=0.4.4"
viuer = "=0.11.0"
walkdir = "=2.5.0"

[dev-dependencies]
lab = "=0.7.2"
