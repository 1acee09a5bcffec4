[package]
name = "orber"
version = "0.1.0"
edition = "2021"
publish = false

[dependencies]
image = { version = "=0.25.10", default-features = false, features = ["png", "jpeg", "webp"] }
kmeans_colors = { version = "=0.7.1", default-features = false, features = ["palette_color"] }
palette = "=0.7.7"
rand = "=0.8.8"
rand_chacha = "=0.3.1"
ttf-parser = "=0.25.1"
zeno = "=0.3.3"
bytemuck = { version = "=1.25.2", features = ["derive"] }
aquarelle = "=0.3.0"
clap = { version = "=4.6.7", features = ["derive"] }
tempfile = "=3.27.0"
thiserror = "=2.0.21"
wgpu = { version = "=30.0.1", features = ["noop"] }
pollster = "=1.0.1"
