[package]
name = "barnes_hut"
version = "0.1.0"
edition = "2021"
publish = false

[dependencies]
fastrand = "2"
rayon = "1"
once_cell = "1"
parking_lot = "0.12"
ultraviolet = "0.9"
palette = "0.7"
broccoli = "6.3"
broccoli-rayon = "0.4"
