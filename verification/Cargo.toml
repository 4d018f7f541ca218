[package]
name = "speech_enhance"
version = "0.1.0"
edition = "2021"
publish = false

[dependencies]
anyhow = "=1.0.104"
clap = { version = "4", features = ["derive"] }
env_logger = "0.11"
hound = "=3.5.1"
log = "0.4"
num-complex = "=0.4.6"
realfft = "=3.5.1"
tract-onnx = "=0.23.0"

[dev-dependencies]
rand = "0.8"
