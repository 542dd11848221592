[package]
name = "vocan"
version = "0.1.0"
edition = "2021"
publish = false

[dependencies]
anyhow = "1"
biquad = "0.4"
egui = "0.27"
hound = "3.5"
libc = "0.2"
nnnoiseless = { version = "0.5", default-features = false }
num_cpus = "1"
rayon = "1"
rustfft = "6.2"
serde = { version = "1", features = ["derive"] }
serde_json = "1"
tempfile = "3"
walkdir = "2"
