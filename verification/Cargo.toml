[package]
name = "stillkit"
version = "0.1.0"
edition = "2021"
publish = false

[dependencies]
chrono = "0.4"
clap = "4"
crossterm = "*"
kamadak-exif = "*"
heic = "*"
img-parts = "*"
indicatif = "*"
ratatui = "*"
rawler = "*"
rayon = "1"
walkdir = "2"
webp = "*"
zune-core = "*"
zune-jpeg = "*"
image = "0.25"
