[package]
name = "wisdom"
version = "0.1.0"
edition = "2021"
publish = false

[dependencies]
crossbeam-channel = "=0.5.17"
macroquad = "=0.4.16"
ndarray = "=0.16.1"
ort = { version = "=2.0.0-rc.10", default-features = false, features = ["std", "ndarray", "load-dynamic"] }
parking_lot = "=0.12.5"
rand = "=0.10.3"
rand_distr = "=0.6.0"
safetensors = "=0.8.0"
serde_json = { version = "=1.0.154", features = ["float_roundtrip"] }
