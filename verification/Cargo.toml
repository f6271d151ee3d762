[package]
name = "fugazi"
version = "0.1.0"
edition = "2021"
publish = false

[dependencies]
anyhow = "=1.0.104"
clap = { version = "=4.6.7", features = ["derive"] }
clap_complete = "=4.6.11"
csv = "=1.4.0"
plotters = { version = "=0.3.7", default-features = false, features = ["bitmap_backend", "bitmap_encoder", "fontconfig-dlopen", "line_series", "ttf"] }
rayon = "=1.12.0"
serde_norway = "=0.9.42"
time = { version = "=0.3.55", default-features = false, features = ["alloc", "parsing", "std"] }
