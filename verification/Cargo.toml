[package]
name = "render3d"
version = "0.1.0"
edition = "2021"
publish = false

[dependencies]
serde = { version = "=1.0.229", features = ["derive"] }
serde_json = "=1.0.154"
csv = "=1.4.0"
calamine = "=0.38.0"
zip = { version = "=9.2.2", default-features = false, features = ["deflate"] }
memmap2 = "=0.9.12"
chrono = { version = "=0.4.45", default-features = false, features = ["clock"] }
dirs = "=7.0.0"
sys-locale = "=0.3.2"
cgmath = "=0.18.0"
bytemuck = { version = "=1.25.2", features = ["derive"] }
stl_io = "=0.11.0"
tobj = "=4.0.5"
anyhow = "=1.0.104"
gltf = "1"
