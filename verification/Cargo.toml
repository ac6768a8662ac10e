[package]
name = "raptor"
version = "0.1.0"
edition = "2021"
publish = false

[dependencies]
arrayvec = "=0.7.8"
bnum = "=0.12.1"
chrono = "=0.4.45"
gtfs-structures = { version = "=0.42.0", default-features = false }
log = "=0.4.34"
rayon = "=1.12.0"
rgb = "=0.8.53"
thiserror = "=1.0.69"
