[package]
name = "fff_index"
version = "0.1.0"
edition = "2021"
publish = false

[dependencies]
neo_frizbee = { version = "=0.13.3", features = ["match_end_col"] }
smallvec = "=1.16.4"
ahash = "=0.8.12"
rayon = "=1.12.0"
bytemuck = { version = "1", features = ["derive"] }
wgpu = "=30.0.1"
pollster = "=1.0.1"
parking_lot = "0.12"
serde_json = "1"
ignore = "0.4"
tracing = "0.1"
libc = "0.2"

[dev-dependencies]
tempfile = "3"
