[package]
name = "cviz"
version = "0.1.0"
edition = "2021"
publish = false

[dependencies]
bytemuck = { version = "1", features = ["derive"] }
clap = { version = "4", features = ["derive"] }
env_logger = "*"
git2 = { version = "*", default-features = false }
glam = "*"
log = "*"
pollster = "*"
serde = { version = "1", features = ["derive"] }
serde_json = "1"
tokio = { version = "1", features = ["rt-multi-thread", "sync", "net", "io-util", "time"] }
wgpu = "*"
winit = "*"
