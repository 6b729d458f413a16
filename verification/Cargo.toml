[package]
name = "ascendustry"
version = "0.1.0"
edition = "2021"
publish = false

[dependencies]
serde = { version = "1", features = ["derive"] }
serde_json = "1"
wgpu = "28"
ratatui = "*"
tokio = { version = "1", features = ["rt"] }
image = { version = "*", default-features = false, features = ["png"] }
cgmath = "0.18"
bytemuck = { version = "1", features = ["derive"] }
anyhow = "1"
rustc-hash = "2"
