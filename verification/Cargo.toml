[package]
name = "yunet_stream"
version = "0.1.0"
edition = "2021"
publish = false

[dependencies]
anyhow = "=1.0.104"
async-stream = "=0.3.6"
bytes = "=1.12.1"
env_logger = "=0.11.11"
log = "=0.4.35"
ndarray = "=0.17.2"
opencv = { version = "=0.94.4", default-features = false, features = ["dnn", "highgui", "imgcodecs", "imgproc", "videoio"] }
ort = { version = "=2.0.0-rc.15", default-features = false, features = ["std", "ndarray", "load-dynamic"] }
tokio = { version = "=1.54.1", features = ["full"] }
warp = "=0.3.7"
