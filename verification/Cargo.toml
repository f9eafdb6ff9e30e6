[package]
name = "bionic_graph"
version = "0.1.0"
edition = "2021"
publish = false

[dependencies]
crc32fast = "=1.5.4"
serde = { version = "=1.0.229", features = ["derive"] }
bincode = "=1.3.3"
chrono = "=0.4.45"
parking_lot = "0.12"
thiserror = "1"
libc = "0.2"
log = "0.4"
