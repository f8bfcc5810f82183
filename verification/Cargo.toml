[package]
name = "pix"
version = "1.0.0"
edition = "2021"
publish = false

[dependencies]
bincode = "=1.3.3"
boolinator = "=2.4.0"
clap = { version = "=2.34.0", default-features = false }
dirs = "=2.0.2"
env_logger = { version = "=0.7.1", default-features = false }
failure = { version = "=0.1.8", default-features = false, features = ["derive"] }
futures = { version = "=0.3.34", features = ["thread-pool"] }
image = "=0.25.10"
lazy_static = "=1.5.1"
log = "=0.4.34"
num_cpus = "=1.17.0"
piston_window = "=0.148.0"
serde = { version = "=1.0.229", features = ["derive"] }
serde_derive = "=1.0.229"
sled = "=0.34.7"
vecmath = "=1.0.0"
walkdir = "=2.5.0"
