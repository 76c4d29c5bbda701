[package]
name = "clam"
version = "0.1.0"
edition = "2021"
publish = false

[dependencies]
distances = "=1.8.0"
rayon = "=1.12.0"
serde = { version = "=1.0.229", features = ["derive"] }
bincode = "=1.3.3"
clap = { version = "=4.6.7", features = ["derive"] }
csv = "=1.4.0"
mt_logger = "=3.0.2"
libm = "=0.2.16"
statistical = "=1.0.0"

[dev-dependencies]
rand = "=0.10.3"
