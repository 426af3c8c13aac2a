[package]
name = "gltf_unlit_generator"
version = "0.1.0"
edition = "2021"
publish = false

[dependencies]
clap = "=2.34.0"
gltf = { version = "=1.4.1", default-features = false, features = ["names"] }
gltf-json = { version = "=1.4.1", features = ["names"] }
image = "=0.18.0"
serde_json = "=1.0.154"
