[package]
name = "massif"
version = "0.2.0"
edition = "2021"
publish = false

[dependencies]
anyhow = "1"
clap = { version = "4", features = ["derive"] }
gdal = "*"
image-webp = "*"
indicatif = "*"
pmtiles = { version = "*", features = ["write"] }
png = "0.17"
rayon = "1"
rusqlite = { version = "*", features = ["bundled"] }
webp = { version = "*", default-features = false }
